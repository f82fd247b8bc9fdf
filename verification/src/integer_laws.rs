//! What each instruction of an integer program does, and what a program does as a whole.
use crate::field::is_bit;
use crate::integer_program::{
    accepts, field, initial_registers, operand_table, predicate_table, run, step, ContextValue,
};
use crate::circuit::FieldR1csBuilder;
use crate::integer_program::unit_results;
use vstd::arithmetic::power2::pow2;
use vstd::prelude::*;

verus! {

proof fn lemma_sizes()
    ensures
        pow2(0) == 1,
        pow2(1) == 2,
        pow2(2) == 4,
        pow2(3) == 8,
        pow2(4) == 16,
        pow2(5) == 32,
        pow2(6) == 64,
        pow2(11) == 2048,
        pow2(16) == 65536,
        pow2(19) == 524288,
        pow2(20) == 1048576,
        pow2(64) == 0x1_0000_0000_0000_0000,
{
    vstd::arithmetic::power2::lemma2_to64();
}

/// An instruction word holds, from its lowest bit on, four bits of operation, two of
/// destination, five of each operand, three of predicate, and the inversion.
pub proof fn lemma_word_fields(
    word: u128,
    op: nat,
    destination: nat,
    left: nat,
    right: nat,
    predicate: nat,
    inverted: nat,
)
    requires
        op < 16,
        destination < 4,
        left < 32,
        right < 32,
        predicate < 8,
        inverted < 2,
        word == op + 16 * destination + 64 * left + 2048 * right + 65536 * predicate + 524288
            * inverted,
    ensures
        field(word, 0, 4) == op,
        field(word, 4, 6) == destination,
        field(word, 6, 11) == left,
        field(word, 11, 16) == right,
        field(word, 16, 19) == predicate,
        field(word, 19, 20) == inverted,
        word < 1048576,
{
    lemma_sizes();
    let w = word as int;
    let (o, d, l) = (op as int, destination as int, left as int);
    let (r, p, i) = (right as int, predicate as int, inverted as int);
    let top = p + 8 * i;
    let mid = r + 32 * top;
    let low = l + 32 * mid;
    lemma_slice(w, 1, 16, 0, o, d + 4 * low);
    lemma_slice(w, 16, 4, o, d, low);
    lemma_slice(w, 64, 32, o + 16 * d, l, mid);
    lemma_slice(w, 2048, 32, o + 16 * d + 64 * l, r, top);
    let below = o + 16 * d + 64 * l + 2048 * r;
    lemma_slice(w, 65536, 8, below, p, i);
    lemma_slice(w, 524288, 2, below + 65536 * p, i, 0);
}

proof fn lemma_slice(w: int, size: int, m: int, low: int, mid: int, high: int)
    requires
        w == low + size * (mid + m * high),
        0 <= low < size,
        0 <= mid < m,
    ensures
        (w / size) % m == mid,
{
    assert(w == size * (mid + m * high) + low);
    assert(size * (mid + m * high) == (mid + m * high) * size) by (nonlinear_arith);
    vstd::arithmetic::div_mod::lemma_fundamental_div_mod_converse(w, size, mid + m * high, low);
    assert(m * high == high * m) by (nonlinear_arith);
    vstd::arithmetic::div_mod::lemma_fundamental_div_mod_converse(mid + m * high, m, high, mid);
}

/// Operand selectors name, in order, the four registers, the immediate word, the height,
/// the fee, the payout, the retained amount, the amount of the input, the three flags,
/// the constants zero and one, the flag of the deadline inverted, the four words of the
/// payout's owner, the creation of the input, and the three slots.
pub proof fn lemma_operands(regs: Seq<u128>, immediate: u128, c: ContextValue)
    requires
        regs.len() == 4,
    ensures
        ({
            let t = operand_table(regs, immediate, c);
            &&& t.len() == 24
            &&& forall|k: int| 0 <= k < 4 ==> #[trigger] t[k] == regs[k]
            &&& t[4] == immediate
            &&& t[5] == c.height
            &&& t[6] == c.fee
            &&& t[7] == c.payout
            &&& t[8] == c.retained
            &&& t[9] == c.input_amount
            &&& t[10] == c.before_deadline
            &&& t[11] == c.terminal
            &&& t[12] == c.has_payout
            &&& t[13] == 0
            &&& t[14] == 1
            &&& is_bit(c.before_deadline) ==> t[15] + c.before_deadline == 1
            &&& forall|k: int| 16 <= k < 20 ==> #[trigger] t[k] == c.payout_owner[k - 16]
            &&& t[20] == c.input_creation_id
            &&& t[21] == c.input_slot
            &&& t[22] == c.retained_slot
            &&& t[23] == c.payout_slot
        }),
{
}

/// Predicate selectors name, in order, the predicate that always holds, the three flags,
/// and the two scratch registers.
pub proof fn lemma_predicates(regs: Seq<u128>, c: ContextValue)
    ensures
        ({
            let t = predicate_table(regs, c);
            &&& t.len() == 6
            &&& t[0] == 1
            &&& t[1] == c.before_deadline
            &&& t[2] == c.terminal
            &&& t[3] == c.has_payout
            &&& t[4] == regs[2]
            &&& t[5] == regs[3]
        }),
{
}

/// A word with a part that names nothing is refused, whether the program is live or not.
pub proof fn lemma_malformed_refused(
    regs: Seq<u128>,
    word: u128,
    immediate: u128,
    c: ContextValue,
    live: bool,
)
    requires
        word >= 1048576 || immediate >= 0x1_0000_0000_0000_0000 || field(word, 0, 4) >= 10
            || field(word, 6, 11) >= 24 || field(word, 11, 16) >= 24 || field(word, 16, 19) >= 6
            || predicate_table(regs, c)[field(word, 16, 19) as int] > 1,
    ensures
        step(regs, word, immediate, c, live) is None,
{
    lemma_sizes();
}

/// An instruction whose predicate does not hold, or holds where it is inverted, changes
/// nothing and cannot fail; nor does any instruction of a program that is not live.
pub proof fn lemma_disabled_keeps(
    regs: Seq<u128>,
    word: u128,
    immediate: u128,
    c: ContextValue,
    live: bool,
)
    requires
        word < 1048576,
        immediate < 0x1_0000_0000_0000_0000,
        field(word, 0, 4) < 10,
        field(word, 6, 11) < 24,
        field(word, 11, 16) < 24,
        field(word, 16, 19) < 6,
        ({
            let p = predicate_table(regs, c)[field(word, 16, 19) as int];
            is_bit(p) && (!live || p == field(word, 19, 20))
        }),
    ensures
        step(regs, word, immediate, c, live) == Some(regs),
{
    lemma_sizes();
}

/// What an enabled instruction does with its operands `x` and `y`: it keeps its
/// destination, moves `x`, adds, subtracts, takes the smaller or the larger, compares for
/// less or for equality, or asserts that the operands are equal or ordered. A sum that
/// does not fit, a difference below zero and an assertion that fails are refused. No
/// register but the destination changes.
pub proof fn lemma_enabled_step(
    regs: Seq<u128>,
    word: u128,
    immediate: u128,
    c: ContextValue,
    x: u128,
    y: u128,
)
    requires
        regs.len() == 4,
        word < 1048576,
        immediate < 0x1_0000_0000_0000_0000,
        field(word, 0, 4) < 10,
        field(word, 6, 11) < 24,
        field(word, 11, 16) < 24,
        field(word, 16, 19) < 6,
        ({
            let p = predicate_table(regs, c)[field(word, 16, 19) as int];
            is_bit(p) && p + field(word, 19, 20) == 1
        }),
        x == operand_table(regs, immediate, c)[field(word, 6, 11) as int],
        y == operand_table(regs, immediate, c)[field(word, 11, 16) as int],
        x < 0x1_0000_0000_0000_0000,
        y < 0x1_0000_0000_0000_0000,
    ensures
        ({
            let out = step(regs, word, immediate, c, true);
            let op = field(word, 0, 4);
            let d = field(word, 4, 6) as int;
            &&& 0 <= d < 4
            &&& out is Some ==> out->0.len() == 4 && forall|k: int|
                0 <= k < 4 && k != d ==> #[trigger] out->0[k] == regs[k]
            &&& op != 2 && op != 3 && op < 8 ==> out is Some
            &&& op == 0 ==> out->0[d] == regs[d]
            &&& op == 1 ==> out->0[d] == x
            &&& op == 2 ==> (out is Some <==> x + y < 0x1_0000_0000_0000_0000)
            &&& op == 2 && out is Some ==> out->0[d] == x + y
            &&& op == 3 ==> (out is Some <==> y <= x)
            &&& op == 3 && out is Some ==> out->0[d] + y == x
            &&& op == 4 ==> out->0[d] <= x && out->0[d] <= y && (out->0[d] == x || out->0[d] == y)
            &&& op == 5 ==> out->0[d] >= x && out->0[d] >= y && (out->0[d] == x || out->0[d] == y)
            &&& op == 6 ==> out->0[d] <= 1 && (out->0[d] == 1 <==> x < y)
            &&& op == 7 ==> out->0[d] <= 1 && (out->0[d] == 1 <==> x == y)
            &&& op == 8 ==> (out is Some <==> x == y)
            &&& op == 9 ==> (out is Some <==> x <= y)
            &&& op >= 8 && out is Some ==> out->0[d] == regs[d]
        }),
{
    lemma_sizes();
}

/// A program runs its instructions one after the other.
pub proof fn lemma_run_push(
    regs: Seq<u128>,
    program: Seq<(u128, u128)>,
    last: (u128, u128),
    c: ContextValue,
    live: bool,
)
    ensures
        run(regs, program, 0, c, live) == Some(regs),
        run(regs, program.push(last), program.len() + 1, c, live) == match run(
            regs,
            program,
            program.len(),
            c,
            live,
        ) {
            Some(mid) => step(mid, last.0, last.1, c, live),
            None => None,
        },
{
    lemma_run_prefix(regs, program, program.push(last), c, live, program.len());
}

proof fn lemma_run_prefix(
    regs: Seq<u128>,
    p: Seq<(u128, u128)>,
    q: Seq<(u128, u128)>,
    c: ContextValue,
    live: bool,
    n: nat,
)
    requires
        n <= p.len(),
        n <= q.len(),
        forall|i: int| 0 <= i < n ==> p[i] == q[i],
    ensures
        run(regs, p, n, c, live) == run(regs, q, n, c, live),
    decreases n,
{
    if n > 0 {
        lemma_run_prefix(regs, p, q, c, live, (n - 1) as nat);
    }
}

/// The state enters as two words, the lower first, with both scratch registers zero.
pub proof fn lemma_state_enters(state: u128)
    ensures
        initial_registers(state).len() == 4,
        initial_registers(state)[0] < 0x1_0000_0000_0000_0000,
        initial_registers(state)[1] < 0x1_0000_0000_0000_0000,
        initial_registers(state)[0] as nat + 0x1_0000_0000_0000_0000 * initial_registers(
            state,
        )[1] as nat == state,
        initial_registers(state)[2] == 0,
        initial_registers(state)[3] == 0,
{
    lemma_sizes();
}

/// A live program accepts exactly the state that its run leaves in the first two
/// registers; a program without instructions accepts the state it was given and no other.
pub proof fn lemma_live_accepts(
    program: Seq<(u128, u128)>,
    current: u128,
    next: u128,
    c: ContextValue,
)
    requires
        c.valid(),
    ensures
        accepts(program, current, next, c, 1) <==> ({
            let out = run(initial_registers(current), program, program.len(), c, true);
            out is Some && next == out->0[0] + 0x1_0000_0000_0000_0000 * out->0[1]
        }),
        program.len() == 0 ==> (accepts(program, current, next, c, 1) <==> next == current),
{
    lemma_sizes();
    lemma_state_enters(current);
}

/// A program that is not live accepts every next state as long as its words name what
/// exists and its predicates are bits; its registers never change.
pub proof fn lemma_idle_run(
    regs: Seq<u128>,
    program: Seq<(u128, u128)>,
    c: ContextValue,
    n: nat,
)
    requires
        n <= program.len(),
        run(regs, program, n, c, false) is Some,
    ensures
        run(regs, program, n, c, false) == Some(regs),
    decreases n,
{
    if n > 0 {
        lemma_idle_run(regs, program, c, (n - 1) as nat);
    }
}

/// The unit adds or subtracts with a carry: a sum and its carry are the sum of the two
/// words, a difference and the word taken away are the first word, one full range higher
/// where no carry comes out; and it compares the two.
pub proof fn lemma_unit(
    b: FieldR1csBuilder,
    l: nat,
    r: nat,
    subtract: bool,
    less: u128,
    equal: u128,
    sum: u128,
    carry: u128,
)
    requires
        b.wf(),
        l < 0x1_0000_0000_0000_0000,
        r < 0x1_0000_0000_0000_0000,
        unit_results(b, l, r, subtract, less, equal, sum, carry),
    ensures
        less == if l < r {
            1u128
        } else {
            0
        },
        equal == if l == r {
            1u128
        } else {
            0
        },
        carry <= 1,
        !subtract ==> b.flat_basis().tower(sum) + 0x1_0000_0000_0000_0000 * carry == l + r,
        subtract ==> b.flat_basis().tower(sum) + r == l + 0x1_0000_0000_0000_0000 * (1 - carry),
        b.flat_basis().tower(sum) < 0x1_0000_0000_0000_0000,
{
    lemma_sizes();
    b.lemma_basis_wf();
    b.flat_basis().lemma_inverse(
        if subtract {
            crate::integer_program::wrapped(l - r)
        } else {
            crate::integer_program::wrapped((l + r) as int)
        },
    );
}

} // verus!
