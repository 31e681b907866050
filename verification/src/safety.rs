//! What holds of the code of the arithmetic primitives: on numbers of the
//! language it leaves the right number in `rax`, or it jumps to the overflow
//! trap. And what holds of the checks of all primitives: where an operand
//! fails, the trap is handed the first one from the left that does.

use crate::compile::{add1_sub1_ops, add_sub_ops, Check, check_bit, check_label, check_ops};
use crate::compile::{checked_operands, Frame, imm_arg, is_neg_ops, is_non_neg_ops, MAX_INT};
use crate::compile::{MIN_INT, mov_reg, mul_ops, overflow_label, prim_ops, SIGN_BIT, swap_ops};
use crate::compile::trap_ops;
use crate::discipline::{lemma_both_checked, lemma_check_label, lemma_load_checked, lemma_then};
use crate::machine::{Alu, alu, alu_exact, arg32_value, arg64_value, Cpu, find_label, fits_word};
use crate::machine::{Flow, label_free, lemma_run_concat, lemma_run_one, pow2, reg, run, set_reg};
use crate::machine::{signed, step_op, word, World};
use crate::syntax::{ImmTerm, Name, Prim};
use crate::x86::{Arg32, Arg64, BinArgs, Op, Reg};
use vstd::prelude::*;

verus! {

/// Whether two states differ in nothing that generated code keeps across a
/// primitive: the stack pointer and the memory.
pub open spec fn same_frame(s: Cpu, t: Cpu) -> bool {
    s.rsp == t.rsp && s.mem == t.mem
}

/// The word that an operand holds.
pub open spec fn operand_word(s: Cpu, i: ImmTerm, env: Seq<(Name, i32)>) -> u64 {
    arg64_value(s, imm_arg(i, env))
}

/// An operand holds the same word wherever the stack pointer and the memory
/// are the same.
pub proof fn lemma_operand_word(s: Cpu, t: Cpu, i: ImmTerm, env: Seq<(Name, i32)>)
    requires
        same_frame(s, t),
    ensures
        operand_word(s, i, env) == operand_word(t, i, env),
{
}

/// The word of a signed number that fits stands for that number.
pub proof fn lemma_signed_word(i: int)
    requires
        fits_word(i),
    ensures
        signed(word(i)) == i,
{
}

/// The lowest bit of a word is the word modulo two.
pub proof fn lemma_low_bit(x: u64)
    ensures
        x & 1 == x % 2,
{
    assert(x & 1 == x % 2) by (bit_vector);
}

/// The check of a tag jumps to its trap where the tag is the one it
/// rejects, and else goes on; it changes `rcx` and the flags only.
pub proof fn lemma_check(c: Check, r: Reg, s: Cpu, w: World)
    requires
        r != Reg::Rcx,
    ensures
        match run(check_ops(c, r), s, w) {
            Flow::Next(t) => reg(s, r) % 2 != check_bit(c) && same_frame(s, t) && t.rax == s.rax
                && t.rdx == s.rdx && t.rsi == s.rsi && t.rdi == s.rdi,
            Flow::Jump(l, t) => reg(s, r) % 2 == check_bit(c) && l == check_label(c) && t.rax
                == s.rax && same_frame(s, t),
            _ => false,
        },
{
    let ops = check_ops(c, r);
    let r1 = ops.drop_first();
    let r2 = r1.drop_first();
    let r3 = r2.drop_first();
    let r4 = r3.drop_first();
    lemma_low_bit(reg(s, r));
    assert(r4.len() == 0);
    assert(r1[0] == ops[1]);
    assert(r2[0] == ops[2]);
    assert(r3[0] == ops[3]);
    reveal_with_fuel(run, 5);
    reveal_with_fuel(find_label, 2);
    let s1 = set_reg(s, Reg::Rcx, reg(s, r));
    assert(step_op(ops[0], s, w) == Flow::Next(s1));
    let s2 = alu(Alu::And, s1, BinArgs::ToReg(Reg::Rcx, Arg32::Signed(1)));
    assert(word(1) == 1);
    assert(word(0) == 0);
    assert(step_op(ops[1], s1, w) == Flow::Next(s2));
    assert(s2.rcx == reg(s, r) & 1);
}

/// Two operands that hold numbers pass the arithmetic checks, and stand in
/// `rax` and `rdx` after them.
pub proof fn lemma_checked_numbers(
    c: Check,
    a: ImmTerm,
    b: ImmTerm,
    env: Seq<(Name, i32)>,
    s: Cpu,
    w: World,
)
    requires
        c == Check::Arith || c == Check::Cmp,
        operand_word(s, a, env) % 2 == 0,
        operand_word(s, b, env) % 2 == 0,
    ensures
        run(checked_operands(c, a, b, env), s, w) matches Flow::Next(t) && same_frame(s, t) && t.rax
            == operand_word(s, a, env) && t.rdx == operand_word(s, b, env),
{
    let m1 = seq![mov_reg(Reg::Rax, imm_arg(a, env))];
    let c1 = check_ops(c, Reg::Rax);
    let m2 = seq![mov_reg(Reg::Rdx, Arg64::Reg(Reg::Rax)), mov_reg(Reg::Rax, imm_arg(b, env))];
    let sw = swap_ops();
    let s1 = set_reg(s, Reg::Rax, operand_word(s, a, env));
    lemma_run_one(m1[0], s, w);
    assert(run(m1, s, w) == Flow::Next(s1));
    lemma_check(c, Reg::Rax, s1, w);
    let s2 = run(c1, s1, w)->Next_0;
    lemma_run_concat(m1, c1, s, w);
    assert(run(m1 + c1, s, w) == Flow::Next(s2));
    lemma_operand_word(s, s2, b, env);
    let s3 = set_reg(s2, Reg::Rdx, s2.rax);
    lemma_operand_word(s, s3, b, env);
    let s4 = set_reg(s3, Reg::Rax, operand_word(s, b, env));
    lemma_run_one(m2[0], s2, w);
    lemma_run_one(m2[1], s3, w);
    lemma_run_concat(seq![m2[0]], seq![m2[1]], s2, w);
    assert(seq![m2[0]] + seq![m2[1]] =~= m2);
    assert(run(m2, s2, w) == Flow::Next(s4));
    lemma_run_concat(m1 + c1, m2, s, w);
    lemma_check(c, Reg::Rax, s4, w);
    lemma_run_concat(m1 + c1 + m2, c1, s, w);
    let s5 = run(c1, s4, w)->Next_0;
    let s6 = set_reg(s5, Reg::Rcx, s5.rax);
    let s7 = set_reg(s6, Reg::Rax, s6.rdx);
    let s8 = set_reg(s7, Reg::Rdx, s7.rcx);
    lemma_run_one(sw[0], s5, w);
    lemma_run_one(sw[1], s6, w);
    lemma_run_one(sw[2], s7, w);
    lemma_run_concat(seq![sw[0]], seq![sw[1]], s5, w);
    lemma_run_concat(seq![sw[0]] + seq![sw[1]], seq![sw[2]], s5, w);
    assert(seq![sw[0]] + seq![sw[1]] + seq![sw[2]] =~= sw);
    assert(run(sw, s5, w) == Flow::Next(s8));
    lemma_run_concat(m1 + c1 + m2 + c1, sw, s, w);
}

/// The last two instructions of an arithmetic primitive: the operation,
/// and the jump to the overflow trap.
pub proof fn lemma_arith_tail(k: Alu, op: Op, y: Arg32, s: Cpu, w: World)
    requires
        k is Add || k is Sub || k is IMul,
        k is Add ==> op == Op::Add(BinArgs::ToReg(Reg::Rax, y)),
        k is Sub ==> op == Op::Sub(BinArgs::ToReg(Reg::Rax, y)),
        k is IMul ==> op == Op::IMul(BinArgs::ToReg(Reg::Rax, y)),
        !(y is Mem),
    ensures
        match run(seq![op, Op::Jo(overflow_label())], s, w) {
            Flow::Next(t) => fits_word(alu_exact(k, s.rax, arg32_value(s, y)))
                && t.rax == word(alu_exact(k, s.rax, arg32_value(s, y)))
                && same_frame(s, t),
            Flow::Jump(l, _) => l == overflow_label() && !fits_word(
                alu_exact(k, s.rax, arg32_value(s, y)),
            ),
            _ => false,
        },
{
    let ops = seq![op, Op::Jo(overflow_label())];
    let r1 = ops.drop_first();
    let r2 = r1.drop_first();
    assert(r2.len() == 0);
    assert(r1[0] == ops[1]);
    reveal_with_fuel(run, 3);
    reveal_with_fuel(find_label, 2);
}

/// The exact result of an arithmetic primitive.
pub open spec fn arith_exact(p: Prim, a: int, b: int) -> int {
    match p {
        Prim::Add => a + b,
        Prim::Sub => a - b,
        Prim::Mul => a * b,
        Prim::Add1 => a + 1,
        _ => a - 1,
    }
}

/// Whether a number is a number of the language.
pub open spec fn in_range(n: int) -> bool {
    MIN_INT <= n <= MAX_INT
}

/// What the code of an arithmetic primitive must do on the numbers `a` and
/// `b`: leave the block through its end with the tagged result in `rax` and
/// the frame as it was, where the result is a number of the language, and
/// else jump to the overflow trap.
pub open spec fn safe_outcome(f: Flow, s: Cpu, result: int) -> bool {
    match f {
        Flow::Next(t) => in_range(result) && t.rax == word(2 * result) && same_frame(s, t),
        Flow::Jump(l, _) => l == overflow_label() && !in_range(result),
        _ => false,
    }
}

/// Addition and subtraction are safe: on operands that hold numbers of the
/// language the code leaves the tagged sum or difference in `rax`, or jumps
/// to the overflow trap, and it jumps only where the result is no number of
/// the language.
pub proof fn lemma_add_sub_safe(
    p: Prim,
    x: ImmTerm,
    y: ImmTerm,
    env: Seq<(Name, i32)>,
    s: Cpu,
    w: World,
    a: int,
    b: int,
)
    requires
        p == Prim::Add || p == Prim::Sub,
        in_range(a),
        in_range(b),
        operand_word(s, x, env) == word(2 * a),
        operand_word(s, y, env) == word(2 * b),
    ensures
        safe_outcome(run(add_sub_ops(p, x, y, env), s, w), s, arith_exact(p, a, b)),
{
    let front = checked_operands(Check::Arith, x, y, env);
    let args = BinArgs::ToReg(Reg::Rax, Arg32::Reg(Reg::Rdx));
    let op = if p == Prim::Add {
        Op::Add(args)
    } else {
        Op::Sub(args)
    };
    let tail = seq![op, Op::Jo(overflow_label())];
    lemma_signed_word(2 * a);
    lemma_signed_word(2 * b);
    lemma_checked_numbers(Check::Arith, x, y, env, s, w);
    let s1 = run(front, s, w)->Next_0;
    lemma_run_concat(front, tail, s, w);
    if p == Prim::Add {
        lemma_arith_tail(Alu::Add, op, Arg32::Reg(Reg::Rdx), s1, w);
    } else {
        lemma_arith_tail(Alu::Sub, op, Arg32::Reg(Reg::Rdx), s1, w);
    }
}

/// Multiplication is safe.
pub proof fn lemma_mul_safe(
    x: ImmTerm,
    y: ImmTerm,
    env: Seq<(Name, i32)>,
    s: Cpu,
    w: World,
    a: int,
    b: int,
)
    requires
        in_range(a),
        in_range(b),
        operand_word(s, x, env) == word(2 * a),
        operand_word(s, y, env) == word(2 * b),
    ensures
        safe_outcome(run(mul_ops(x, y, env), s, w), s, arith_exact(Prim::Mul, a, b)),
{
    let front = checked_operands(Check::Arith, x, y, env);
    let sar = Op::Sar(BinArgs::ToReg(Reg::Rdx, Arg32::Signed(1)));
    let op = Op::IMul(BinArgs::ToReg(Reg::Rax, Arg32::Reg(Reg::Rdx)));
    let tail = seq![op, Op::Jo(overflow_label())];
    lemma_signed_word(2 * a);
    lemma_signed_word(2 * b);
    lemma_signed_word(b);
    lemma_checked_numbers(Check::Arith, x, y, env, s, w);
    let s1 = run(front, s, w)->Next_0;
    assert(word(1) == 1);
    assert(pow2(1) == 2) by {
        reveal_with_fuel(pow2, 2);
    }
    let s2 = alu(Alu::Sar, s1, BinArgs::ToReg(Reg::Rdx, Arg32::Signed(1)));
    assert(s2.rdx == word(b));
    lemma_run_one(sar, s1, w);
    lemma_run_concat(front, seq![sar], s, w);
    lemma_arith_tail(Alu::IMul, op, Arg32::Reg(Reg::Rdx), s2, w);
    lemma_run_concat(front + seq![sar], tail, s, w);
    assert(mul_ops(x, y, env) =~= front + seq![sar] + tail);
    assert((2 * a) * b == 2 * (a * b)) by (nonlinear_arith);
}

/// Adding and subtracting one are safe.
pub proof fn lemma_add1_sub1_safe(
    p: Prim,
    x: ImmTerm,
    env: Seq<(Name, i32)>,
    s: Cpu,
    w: World,
    a: int,
)
    requires
        p == Prim::Add1 || p == Prim::Sub1,
        in_range(a),
        operand_word(s, x, env) == word(2 * a),
    ensures
        safe_outcome(run(add1_sub1_ops(p, x, env), s, w), s, arith_exact(p, a, 0)),
{
    let m1 = seq![mov_reg(Reg::Rax, imm_arg(x, env))];
    let c1 = check_ops(Check::Arith, Reg::Rax);
    let args = BinArgs::ToReg(Reg::Rax, Arg32::Signed(2));
    let op = if p == Prim::Add1 {
        Op::Add(args)
    } else {
        Op::Sub(args)
    };
    let tail = seq![op, Op::Jo(overflow_label())];
    lemma_signed_word(2 * a);
    lemma_signed_word(2);
    assert(word(2) == 2);
    let s1 = set_reg(s, Reg::Rax, operand_word(s, x, env));
    lemma_run_one(m1[0], s, w);
    assert(run(m1, s, w) == Flow::Next(s1));
    lemma_check(Check::Arith, Reg::Rax, s1, w);
    lemma_run_concat(m1, c1, s, w);
    let s2 = run(c1, s1, w)->Next_0;
    lemma_run_concat(m1 + c1, tail, s, w);
    if p == Prim::Add1 {
        lemma_arith_tail(Alu::Add, op, Arg32::Signed(2), s2, w);
    } else {
        lemma_arith_tail(Alu::Sub, op, Arg32::Signed(2), s2, w);
    }
}

/// Whether a primitive is one of the five that compute a number.
pub open spec fn is_arithmetic(p: Prim) -> bool {
    p == Prim::Add || p == Prim::Sub || p == Prim::Mul || p == Prim::Add1 || p == Prim::Sub1
}

/// Overflow safety: for every arithmetic primitive on operands that hold
/// numbers of the language, the code either leaves the right result in
/// `rax`, as a tagged number, or jumps to the overflow trap; and it jumps
/// exactly where the result is no number of the language. `b` counts for
/// the primitives of two operands only.
pub proof fn lemma_arithmetic_safe(
    p: Prim,
    args: Seq<ImmTerm>,
    env: Seq<(Name, i32)>,
    counter: nat,
    frame: Frame,
    s: Cpu,
    w: World,
    a: int,
    b: int,
)
    requires
        is_arithmetic(p),
        args.len() == p.arity(),
        in_range(a),
        operand_word(s, args[0], env) == word(2 * a),
        p.arity() == 2 ==> in_range(b) && operand_word(s, args[1], env) == word(2 * b),
    ensures
        safe_outcome(run(prim_ops(p, args, env, counter, frame), s, w), s, arith_exact(p, a, b)),
{
    match p {
        Prim::Add | Prim::Sub => lemma_add_sub_safe(p, args[0], args[1], env, s, w, a, b),
        Prim::Mul => lemma_mul_safe(args[0], args[1], env, s, w, a, b),
        _ => lemma_add1_sub1_safe(p, args[0], env, s, w, a),
    }
}

/// The check that a primitive makes of its operands, where it makes one.
pub open spec fn prim_check(p: Prim) -> Option<Check> {
    match p {
        Prim::Add | Prim::Sub | Prim::Mul | Prim::Add1 | Prim::Sub1 => Some(Check::Arith),
        Prim::Lt | Prim::Gt | Prim::Le | Prim::Ge => Some(Check::Cmp),
        Prim::And | Prim::Or | Prim::Not => Some(Check::Logic),
        _ => None,
    }
}

/// The first operand from the left that fails the check, where one does.
pub open spec fn first_offender(
    c: Check,
    args: Seq<ImmTerm>,
    env: Seq<(Name, i32)>,
    s: Cpu,
) -> Option<u64> {
    if operand_word(s, args[0], env) % 2 == check_bit(c) {
        Some(operand_word(s, args[0], env))
    } else if args.len() == 2 && operand_word(s, args[1], env) % 2 == check_bit(c) {
        Some(operand_word(s, args[1], env))
    } else {
        None
    }
}

/// The offending value: where an operand of a primitive fails its check,
/// the code jumps to the trap of the check before it computes anything,
/// with the first operand from the left that fails in `rax`, and with the
/// stack pointer and the memory as they were.
pub proof fn lemma_trap_finds_offender(
    p: Prim,
    args: Seq<ImmTerm>,
    env: Seq<(Name, i32)>,
    counter: nat,
    frame: Frame,
    s: Cpu,
    w: World,
)
    requires
        prim_check(p) is Some,
        args.len() == p.arity(),
        first_offender(prim_check(p)->0, args, env, s) is Some,
    ensures
        run(prim_ops(p, args, env, counter, frame), s, w) matches Flow::Jump(l, t) && l
            == check_label(prim_check(p)->0) && same_frame(s, t) && Some(t.rax) == first_offender(
            prim_check(p)->0,
            args,
            env,
            s,
        ),
{
    let c = prim_check(p)->0;
    let a = args[0];
    lemma_check_label(c);
    if p.arity() == 1 {
        let front = seq![mov_reg(Reg::Rax, imm_arg(a, env))] + check_ops(c, Reg::Rax);
        let tail = if p == Prim::Not {
            seq![
                mov_reg(Reg::Rdx, Arg64::Unsigned(SIGN_BIT)),
                Op::Xor(BinArgs::ToReg(Reg::Rax, Arg32::Reg(Reg::Rdx))),
            ]
        } else {
            let by = BinArgs::ToReg(Reg::Rax, Arg32::Signed(2));
            seq![
                if p == Prim::Add1 {
                    Op::Add(by)
                } else {
                    Op::Sub(by)
                },
                Op::Jo(overflow_label()),
            ]
        };
        assert(prim_ops(p, args, env, counter, frame) == front + tail);
        assert(label_free(tail));
        lemma_load_checked(c, a, env, s, w);
        lemma_then(front, tail, s, w);
    } else {
        let b = args[1];
        let front = checked_operands(c, a, b, env);
        lemma_both_checked(c, a, b, env, s, w);
        let by = BinArgs::ToReg(Reg::Rax, Arg32::Reg(Reg::Rdx));
        match p {
            Prim::Add | Prim::Sub => {
                let tail = seq![
                    if p == Prim::Add {
                        Op::Add(by)
                    } else {
                        Op::Sub(by)
                    },
                    Op::Jo(overflow_label()),
                ];
                assert(label_free(tail));
                lemma_then(front, tail, s, w);
            },
            Prim::Mul => {
                let tail = seq![
                    Op::Sar(BinArgs::ToReg(Reg::Rdx, Arg32::Signed(1))),
                    Op::IMul(by),
                    Op::Jo(overflow_label()),
                ];
                assert(label_free(tail));
                lemma_then(front, tail, s, w);
            },
            Prim::And | Prim::Or => {
                let tail = seq![
                    if p == Prim::And {
                        Op::And(by)
                    } else {
                        Op::Or(by)
                    },
                ];
                assert(label_free(tail));
                lemma_then(front, tail, s, w);
            },
            _ => {
                let reverse = p == Prim::Gt || p == Prim::Le;
                let shifts = seq![
                    Op::Sar(BinArgs::ToReg(Reg::Rax, Arg32::Signed(1))),
                    Op::Sar(BinArgs::ToReg(Reg::Rdx, Arg32::Signed(1))),
                ];
                let minus = if reverse {
                    seq![
                        Op::Sub(BinArgs::ToReg(Reg::Rdx, Arg32::Reg(Reg::Rax))),
                        mov_reg(Reg::Rax, Arg64::Reg(Reg::Rdx)),
                    ]
                } else {
                    seq![Op::Sub(by)]
                };
                let sign = if p == Prim::Lt || p == Prim::Gt {
                    is_neg_ops()
                } else {
                    is_non_neg_ops()
                };
                assert(label_free(shifts));
                assert(label_free(minus));
                assert(label_free(sign));
                lemma_then(front, shifts, s, w);
                lemma_then(front + shifts, minus, s, w);
                lemma_then(front + shifts + minus, sign, s, w);
                assert(prim_ops(p, args, env, counter, frame) == front + shifts + minus + sign);
            },
        }
    }
}

/// A trap hands the value on: it calls the runtime's error function with
/// the code of the error in `rdi` and, in `rsi`, what stood in `rax` when
/// the trap was jumped to.
pub proof fn lemma_trap_hands_on(name: Name, code: i64, s: Cpu, w: World)
    ensures
        run(trap_ops(name, code), s, w) == Flow::Next(
            w(
                "snake_error"@,
                set_reg(set_reg(s, Reg::Rdi, word(code as int)), Reg::Rsi, s.rax),
            ),
        ),
{
    let ops = trap_ops(name, code);
    let s1 = set_reg(s, Reg::Rdi, word(code as int));
    let s2 = set_reg(s1, Reg::Rsi, s.rax);
    lemma_run_one(ops[0], s, w);
    lemma_run_one(ops[1], s, w);
    lemma_run_one(ops[2], s1, w);
    lemma_run_one(ops[3], s2, w);
    lemma_run_concat(seq![ops[0]], seq![ops[1]], s, w);
    lemma_run_concat(seq![ops[0]] + seq![ops[1]], seq![ops[2]], s, w);
    lemma_run_concat(seq![ops[0]] + seq![ops[1]] + seq![ops[2]], seq![ops[3]], s, w);
    assert(seq![ops[0]] + seq![ops[1]] + seq![ops[2]] + seq![ops[3]] =~= ops);
}

} // verus!
