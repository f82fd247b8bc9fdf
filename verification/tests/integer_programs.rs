//! Object programs, against an interpreter on plain integers.
use noid_recursive::circuit::{FieldR1cs, FieldR1csBuilder, LinExpr};
use noid_recursive::development_allocation::alloc_block;
use noid_recursive::field::F128;
use noid_recursive::integer_program::{
    bind_program, integer_results, selectors, ContextTrace, INSTRUCTION_BITS, OPCODE_COUNT, OPERAND_COUNT, PREDICATE_COUNT,
};

const STEPS: usize = 16;
type Program = [[u128; 2]; STEPS];
const EMPTY_PROGRAM: Program = [[0; 2]; STEPS];

const MOVE: u128 = 1;
const ADD: u128 = 2;

const STATE0: u128 = 0;
const SCRATCH0: u128 = 2;
const SCRATCH1: u128 = 3;

const IMMEDIATE: u128 = 4;
const HEIGHT: u128 = 5;
const ZERO: u128 = 13;
const ONE: u128 = 14;

const BEFORE_DEADLINE: u128 = 1;
const TERMINAL: u128 = 2;
const SCRATCH0_SET: u128 = 4;
const SCRATCH1_SET: u128 = 5;

#[derive(Clone, Copy, Default)]
struct Context {
    height: u64,
    fee: u64,
    payout: u64,
    retained: u64,
    input_amount: u64,
    before_deadline: bool,
    terminal: bool,
    has_payout: bool,
    payout_owner: [u64; 4],
    input_creation_id: u64,
    input_slot: u32,
    retained_slot: u32,
    payout_slot: u32,
}

fn instruction(op: u128, destination: u128, left: u128, right: u128, immediate: u64) -> [u128; 2] {
    [op | destination << 4 | left << 6 | right << 11, immediate as u128]
}

fn when(mut instruction: [u128; 2], predicate: u128, inverted: bool) -> [u128; 2] {
    instruction[0] |= predicate << 16 | (inverted as u128) << 19;
    instruction
}

fn pack_state(state: [u64; 2]) -> u128 {
    state[0] as u128 | (state[1] as u128) << 64
}

fn execute(program: &Program, current: u128, context: Context) -> Option<u128> {
    let mut regs = [current as u64, (current >> 64) as u64, 0, 0];
    for [word, immediate] in program {
        if word >> INSTRUCTION_BITS != 0 || immediate >> 64 != 0 {
            return None;
        }
        let op = (word & 15) as usize;
        let destination = (word >> 4 & 3) as usize;
        let left = (word >> 6 & 31) as usize;
        let right = (word >> 11 & 31) as usize;
        let predicate = (word >> 16 & 7) as usize;
        let inverted = word >> 19 & 1 == 1;
        if op >= OPCODE_COUNT
            || left >= OPERAND_COUNT
            || right >= OPERAND_COUNT
            || predicate >= PREDICATE_COUNT
        {
            return None;
        }
        let operands = [
            regs[0],
            regs[1],
            regs[2],
            regs[3],
            *immediate as u64,
            context.height,
            context.fee,
            context.payout,
            context.retained,
            context.input_amount,
            context.before_deadline as u64,
            context.terminal as u64,
            context.has_payout as u64,
            0,
            1,
            !context.before_deadline as u64,
            context.payout_owner[0],
            context.payout_owner[1],
            context.payout_owner[2],
            context.payout_owner[3],
            context.input_creation_id,
            context.input_slot as u64,
            context.retained_slot as u64,
            context.payout_slot as u64,
        ];
        let condition = [
            1,
            context.before_deadline as u64,
            context.terminal as u64,
            context.has_payout as u64,
            regs[2],
            regs[3],
        ][predicate];
        if condition > 1 {
            return None;
        }
        if (condition == 1) == inverted {
            continue;
        }
        let (l, r) = (operands[left], operands[right]);
        regs[destination] = match op {
            1 => l,
            2 => l.checked_add(r)?,
            3 => l.checked_sub(r)?,
            4 => l.min(r),
            5 => l.max(r),
            6 => (l < r) as u64,
            7 => (l == r) as u64,
            8 if l != r => return None,
            9 if l > r => return None,
            _ => regs[destination],
        };
    }
    Some(pack_state([regs[0], regs[1]]))
}

fn run_live(
    program: &Program,
    current: u128,
    next: u128,
    context: Context,
    live: u128,
) -> (bool, FieldR1cs) {
    let mut b = FieldR1csBuilder::new();
    let program = program.map(|pair| pair.map(|value| alloc_block(&mut b, value)));
    let current = alloc_block(&mut b, current);
    let next = alloc_block(&mut b, next);
    let context = ContextTrace {
        height: alloc_block(&mut b, context.height as u128),
        fee: alloc_block(&mut b, context.fee as u128),
        payout: alloc_block(&mut b, context.payout as u128),
        retained: alloc_block(&mut b, context.retained as u128),
        input_amount: alloc_block(&mut b, context.input_amount as u128),
        before_deadline: alloc_block(&mut b, context.before_deadline as u128),
        terminal: alloc_block(&mut b, context.terminal as u128),
        has_payout: alloc_block(&mut b, context.has_payout as u128),
        payout_owner: context.payout_owner.map(|value| alloc_block(&mut b, value as u128)),
        input_creation_id: alloc_block(&mut b, context.input_creation_id as u128),
        input_slot: alloc_block(&mut b, context.input_slot as u128),
        retained_slot: alloc_block(&mut b, context.retained_slot as u128),
        payout_slot: alloc_block(&mut b, context.payout_slot as u128),
    };
    let live = LinExpr::constant(F128 { bits: live });
    bind_program(&mut b, &program, &current, &next, &context, &live);
    let (matrix, witness) = b.build();
    (matrix.satisfies(&witness), matrix)
}

fn run(program: &Program, current: u128, next: u128, context: Context) -> (bool, FieldR1cs) {
    run_live(program, current, next, context, 1)
}

#[test]
fn every_predicate_and_its_inverse_select_exactly_one_update() {
    let mut shape: Option<FieldR1cs> = None;
    for source in 0..PREDICATE_COUNT as u128 {
        for inverted in [false, true] {
            for bit in [0u64, 1] {
                let mut program = EMPTY_PROGRAM;
                program[0] = instruction(MOVE, SCRATCH0, IMMEDIATE, ZERO, bit);
                program[1] = instruction(MOVE, SCRATCH1, IMMEDIATE, ZERO, bit ^ 1);
                program[2] =
                    when(instruction(MOVE, STATE0, IMMEDIATE, ZERO, 77), source, inverted);
                let context = Context {
                    before_deadline: bit == 1,
                    terminal: bit == 0,
                    has_payout: bit == 1,
                    ..Context::default()
                };
                let predicate = match source {
                    0 => true,
                    TERMINAL | SCRATCH1_SET => bit == 0,
                    _ => bit == 1,
                };
                let current = pack_state([11, u64::MAX]);
                let expected = pack_state([if predicate != inverted { 77 } else { 11 }, u64::MAX]);
                assert_eq!(execute(&program, current, context), Some(expected));
                let (valid, matrix) = run(&program, current, expected, context);
                assert!(valid, "{source:?}, inverted={inverted}, bit={bit}");
                if let Some(known) = &shape {
                    assert!(known.same_structure(&matrix));
                }
                shape = Some(matrix);
            }
        }
    }
}

#[test]
fn all_operations_and_integer_boundaries_match_native_with_one_matrix() {
    let mut shape: Option<FieldR1cs> = None;
    for opcode in 0..OPCODE_COUNT as u128 {
        for (left, right) in [
            (0, 0),
            (0, 1),
            (1, 0),
            (1, 1),
            (u64::MAX, 1),
            (u64::MAX, u64::MAX),
            (1 << 63, 1 << 63),
            ((1 << 63) - 1, 1),
        ] {
            let mut program = EMPTY_PROGRAM;
            program[0] = instruction(opcode, STATE0, STATE0, IMMEDIATE, right);
            let current = pack_state([left, 77]);
            let expected = execute(&program, current, Context::default());
            let (valid, matrix) =
                run(&program, current, expected.unwrap_or(current), Context::default());
            assert_eq!(valid, expected.is_some(), "{opcode:?}({left}, {right})");
            if let Some(known) = &shape {
                assert!(known.same_structure(&matrix));
            }
            shape = Some(matrix);
            if let Some(next) = expected {
                assert!(!run(&program, current, next ^ 1, Context::default()).0);
            }
        }
    }
}

#[test]
fn malformed_code_and_non_boolean_predicates_reject_in_the_trace() {
    for word in [10, 24 << 6, 24 << 11, 6 << 16, 1 << INSTRUCTION_BITS] {
        let mut program = EMPTY_PROGRAM;
        program[0][0] = word;
        assert!(!run(&program, 0, 0, Context::default()).0);
    }
    let mut program = EMPTY_PROGRAM;
    program[0][1] = 1u128 << 64;
    assert!(!run(&program, 0, 0, Context::default()).0);
    program = EMPTY_PROGRAM;
    program[0] = instruction(MOVE, SCRATCH0, IMMEDIATE, ZERO, 2);
    program[1] = when(instruction(MOVE, STATE0, ONE, ZERO, 0), SCRATCH0_SET, false);
    assert!(!run(&program, 0, 1, Context::default()).0);
}

#[test]
fn height_guards_and_skipped_overflow_match_recovery_semantics() {
    let mut program = EMPTY_PROGRAM;
    program[0] = when(instruction(ADD, STATE0, HEIGHT, IMMEDIATE, 30), BEFORE_DEADLINE, false);
    let current = pack_state([7, 9]);
    for (height, before_deadline) in
        [(0, true), (210_537, true), (u64::MAX, false), (u64::MAX, true)]
    {
        let context = Context { height, before_deadline, ..Context::default() };
        let expected = execute(&program, current, context);
        let (valid, _) = run(&program, current, expected.unwrap_or(current), context);
        assert_eq!(valid, expected.is_some());
    }
    let context = Context { height: 900, before_deadline: true, ..Context::default() };
    let next = execute(&program, current, context).unwrap();
    assert_eq!(next, pack_state([930, 9]));
    assert!(!run(&program, current, next, Context { height: 901, ..context }).0);
    assert!(!run(&program, current, next, Context { before_deadline: false, ..context }).0);
}

#[test]
fn every_operand_is_bound_to_its_selected_context_or_register() {
    let context = Context {
        height: 90,
        fee: 3,
        payout: 47,
        retained: 51,
        input_amount: 101,
        before_deadline: true,
        terminal: false,
        has_payout: true,
        payout_owner: [11, 22, 33, 44],
        input_creation_id: 12345,
        input_slot: 300,
        retained_slot: 301,
        payout_slot: 302,
    };
    for source in 0..OPERAND_COUNT as u128 {
        let mut program = EMPTY_PROGRAM;
        program[0] = instruction(MOVE, SCRATCH0, IMMEDIATE, ZERO, 21);
        program[1] = instruction(MOVE, SCRATCH1, IMMEDIATE, ZERO, 31);
        program[2] = instruction(MOVE, STATE0, source, ZERO, 41);
        let current = pack_state([17, 27]);
        let next = execute(&program, current, context).unwrap();
        assert!(run(&program, current, next, context).0, "source={source:?}");
        assert!(!run(&program, current, next ^ 1, context).0);
    }
}

#[test]
fn a_dead_program_is_checked_for_code_and_says_nothing_of_the_state() {
    let mut program = EMPTY_PROGRAM;
    program[0] = instruction(ADD, STATE0, IMMEDIATE, IMMEDIATE, u64::MAX);
    assert!(!run_live(&program, 5, 5, Context::default(), 1).0);
    assert!(run_live(&program, 5, 123, Context::default(), 0).0);
    program[1][0] = 10;
    assert!(!run_live(&program, 5, 123, Context::default(), 0).0);
    assert!(!run_live(&EMPTY_PROGRAM, 5, 5, Context::default(), 2).0);
    assert!(run_live(&EMPTY_PROGRAM, 5, 5, Context::default(), 1).0);
}

#[test]
fn sums_and_differences_wrap() {
    let max = u64::MAX;
    for (l, r) in [(5u64, 3u64), (3, 5), (max, 1), (0, max), (max, max), (0, 0)] {
        for subtract in [false, true] {
            let mut b = FieldR1csBuilder::new();
            let bits = |b: &mut FieldR1csBuilder, v: u64| {
                (0..64).map(|i| b.alloc_bool((v >> i) & 1 == 1)).collect::<Vec<_>>()
            };
            let left = bits(&mut b, l);
            let right = bits(&mut b, r);
            let minus = LinExpr::from_wire(b.alloc_bool(subtract));
            let (less, equal, sum, carry) = integer_results(&mut b, &left, &right, &minus);
            let value = |e: &LinExpr| e.eval(b.values()).bits;
            let (expected, expected_carry) = if subtract {
                (l.wrapping_sub(r), l >= r)
            } else {
                (l.wrapping_add(r), l.checked_add(r).is_none())
            };
            assert_eq!(value(&less), (l < r) as u128);
            assert_eq!(value(&equal), (l == r) as u128);
            assert_eq!(value(&sum), expected as u128);
            assert_eq!(value(&carry), expected_carry as u128);
            let (matrix, witness) = b.build();
            assert!(matrix.satisfies(&witness), "no carry is refused by itself");
        }
    }
}

#[test]
fn without_an_allowed_index_nothing_is_accepted() {
    for (value, allowed, accepted) in [(0u64, 0usize, false), (3, 0, false), (3, 4, true), (3, 3, false)] {
        let mut b = FieldR1csBuilder::new();
        let bits = (0..2).map(|i| b.alloc_bool((value >> i) & 1 == 1)).collect::<Vec<_>>();
        assert_eq!(selectors(&mut b, &bits, allowed).len(), allowed);
        let (matrix, witness) = b.build();
        assert_eq!(matrix.satisfies(&witness), accepted);
    }
}
