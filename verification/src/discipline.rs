//! The discipline of generated code: the code of an expression leaves the
//! stack pointer where it was, and leaves a legal tagged value in `rax`,
//! where the functions it calls do the same.

use crate::compile::{add1_sub1_ops, add_sub_ops, and_or_ops, call_gap, call_ops, Check, check_bit};
use crate::compile::{check_label, check_ops, checked_operands, compilable, equality_ops, Frame};
use crate::compile::{frame_bytes, frame_of, fun_compilable, fun_label, fun_ops, imm_arg, imm_bound};
use crate::compile::{imms_bound, is_neg_ops, is_non_neg_ops, is_tag_ops, labels, load_rax, lower};
use crate::compile::{main_ops, MAX_FRAME, mov_reg, move_args, mul_ops, not_ops, order_ops};
use crate::compile::{overflow_label, param_slots, prim_ops, print_ops, SIGN_BIT, slot_of, slots};
use crate::compile::{SNAKE_FLS, SNAKE_TRU, store_args, store_rax, swap_ops, tag_num, tail_call_ops};
use crate::labels::{labels_between, lemma_fun_label, lemma_labels_concat, lemma_labels_widen};
use crate::labels::{lemma_lower_labels, lemma_no_labels, lemma_numbered_absent};
use crate::labels::{lemma_numbered_distinct, lemma_outer_absent, lemma_prefixes, local_prefix};
use crate::labels::{outer_label, trap_label};
use crate::machine::{Alu, alu, alu_overflow, Cpu, find_label, Flow, label_free};
use crate::machine::{lemma_find_label_concat, lemma_run_concat, lemma_run_concat_jump};
use crate::machine::{lemma_run_concat_resolve, lemma_run_concat_return, lemma_run_one, load, reg};
use crate::machine::{run, set_reg, signed, store, word, World};
use crate::names::{index_of, keys, lemma_index_of, lemma_keys_push, numbered};
use crate::runtime::legal_word;
use crate::safety::{lemma_check, lemma_operand_word, operand_word, same_frame};
use crate::syntax::{ImmTerm, Name, Prim, SeqFunTerm, SeqTerm};
use crate::x86::{Arg32, Arg64, BinArgs, MemRef, Op, Reg};
use vstd::prelude::*;

verus! {

/// Whether every word of memory at or above `from` that was legal is legal.
pub open spec fn kept(s: Cpu, t: Cpu, from: int) -> bool {
    forall|a: int| a >= from && legal_word(s.mem[a]) ==> legal_word(#[trigger] t.mem[a])
}

/// Whether every word of memory that was legal is legal.
pub open spec fn kept_all(s: Cpu, t: Cpu) -> bool {
    forall|a: int| legal_word(s.mem[a]) ==> legal_word(#[trigger] t.mem[a])
}

/// What is asked of the functions that are called: each returns with the
/// stack pointer where it was at the call and a legal tagged value in
/// `rax`, and leaves legal whatever was legal in memory at or above the
/// stack pointer.
pub open spec fn well_behaved(w: World) -> bool {
    forall|l: Name, s: Cpu|
        #![trigger w(l, s)]
        w(l, s).rsp == s.rsp && legal_word(w(l, s).rax) && kept(s, w(l, s), signed(s.rsp))
}

/// Whether the stack lies well inside the address space, so that no frame
/// wraps around its ends.
pub open spec fn room(s: Cpu) -> bool {
    -0x4000_0000_0000_0000 <= signed(s.rsp) <= 0x4000_0000_0000_0000
}

/// Whether every slot of the environment holds a legal tagged value.
pub open spec fn slots_legal(s: Cpu, env: Seq<(Name, i32)>) -> bool {
    forall|k: int| 0 <= k < env.len() ==> legal_word(s.mem[signed(s.rsp) + (#[trigger] env[k]).1])
}

/// Whether every slot of the environment lies at or above the lowest of
/// `depth` local slots.
pub open spec fn env_within(env: Seq<(Name, i32)>, depth: nat) -> bool {
    forall|k: int| 0 <= k < env.len() ==> -8 * depth <= (#[trigger] env[k]).1
}

/// What the code of an expression must come to from the state `s` with
/// `depth` local slots in use: it is left through its end with a legal
/// tagged value in `rax`, or by a jump to a trap or to a function; the stack
/// pointer is where it was, and what was legal in the frame and above is
/// legal.
pub open spec fn disciplined(f: Flow, s: Cpu, depth: nat) -> bool {
    match f {
        Flow::Next(u) => u.rsp == s.rsp && legal_word(u.rax) && kept(
            s,
            u,
            signed(s.rsp) - 8 * depth,
        ),
        Flow::Jump(l, u) => outer_label(l) && u.rsp == s.rsp && kept(
            s,
            u,
            signed(s.rsp) - 8 * depth,
        ),
        Flow::Return(_) => false,
    }
}

/// A block after another whose labels are numbered: where the first is
/// left through its end, the second runs, and where it is left otherwise,
/// by a jump to a trap or a function or by a return, both are left so.
pub proof fn lemma_seq(a: Seq<Op>, b: Seq<Op>, s: Cpu, w: World, lo: nat, hi: nat)
    requires
        labels_between(b, lo, hi),
        run(a, s, w) matches Flow::Jump(l, _) ==> outer_label(l),
    ensures
        run(a + b, s, w) == (match run(a, s, w) {
            Flow::Next(t) => run(b, t, w),
            f => f,
        }),
{
    match run(a, s, w) {
        Flow::Next(_) => {
            lemma_run_concat(a, b, s, w);
        },
        Flow::Jump(l, _) => {
            lemma_outer_absent(b, lo, hi, l);
            lemma_run_concat_jump(a, b, s, w);
        },
        Flow::Return(_) => {
            lemma_run_concat_return(a, b, s, w);
        },
    }
}

/// The word of a tagged number is even.
pub proof fn lemma_tagged_even(n: i64)
    ensures
        word(tag_num(n) as int) % 2 == 0,
{
}

/// An operand that is bound holds a legal tagged value, where every slot
/// of the environment does.
pub proof fn lemma_operand_legal(s: Cpu, i: ImmTerm, env: Seq<(Name, i32)>)
    requires
        imm_bound(i, keys(env)),
        slots_legal(s, env),
    ensures
        legal_word(operand_word(s, i, env)),
{
    match i {
        ImmTerm::Num(n) => {
            lemma_tagged_even(n);
        },
        ImmTerm::Bool(_) => {},
        ImmTerm::Var(x) => {
            lemma_index_of(keys(env), x);
            let k = index_of(keys(env), x);
            assert(slot_of(env, x) == env[k].1);
            assert(legal_word(s.mem[signed(s.rsp) + env[k].1]));
        },
    }
}

/// Writing a legal word keeps memory legal.
pub proof fn lemma_store_kept(s: Cpu, m: MemRef, v: u64)
    requires
        legal_word(v),
    ensures
        kept_all(s, store(s, m, v)),
        store(s, m, v).rsp == s.rsp,
        store(s, m, v).rax == s.rax,
{
}

/// Memory that is kept legal twice is kept legal.
pub proof fn lemma_kept_all_trans(s: Cpu, t: Cpu, u: Cpu)
    requires
        kept_all(s, t),
        kept_all(t, u),
    ensures
        kept_all(s, u),
{
    assert forall|a: int| legal_word(s.mem[a]) implies legal_word(#[trigger] u.mem[a]) by {
        assert(legal_word(t.mem[a]));
    }
}

/// Slots that were legal are legal where the stack pointer is the same and
/// memory was kept legal.
pub proof fn lemma_slots_kept(s: Cpu, t: Cpu, env: Seq<(Name, i32)>)
    requires
        slots_legal(s, env),
        kept_all(s, t),
        t.rsp == s.rsp,
    ensures
        slots_legal(t, env),
{
    assert forall|k: int| 0 <= k < env.len() implies legal_word(
        t.mem[signed(t.rsp) + (#[trigger] env[k]).1],
    ) by {
        assert(legal_word(s.mem[signed(s.rsp) + env[k].1]));
    }
}

/// The stores of the arguments of a call leave the stack pointer where it
/// was and memory legal.
pub proof fn lemma_store_args(
    args: Seq<ImmTerm>,
    env: Seq<(Name, i32)>,
    base: int,
    s: Cpu,
    w: World,
)
    requires
        imms_bound(args, keys(env)),
        slots_legal(s, env),
    ensures
        run(store_args(args, env, base), s, w) matches Flow::Next(u) && u.rsp == s.rsp
            && kept_all(s, u) && forall|k: int|
            0 <= k < args.len() ==> legal_word(
                #[trigger] u.mem[signed(s.rsp) + ((base + 8 * k) as i32)],
            ),
    decreases args.len(),
{
    if args.len() == 0 {
        assert(store_args(args, env, base) =~= Seq::<Op>::empty());
    } else {
        let dl = args.drop_last();
        let n = args.len() - 1;
        assert forall|k: int| 0 <= k < dl.len() implies imm_bound(#[trigger] dl[k], keys(env)) by {
            assert(dl[k] == args[k]);
        }
        lemma_store_args(dl, env, base, s, w);
        let u = run(store_args(dl, env, base), s, w)->Next_0;
        lemma_slots_kept(s, u, env);
        assert(imm_bound(args[n], keys(env)));
        lemma_operand_legal(u, args.last(), env);
        let mov = mov_reg(Reg::Rax, imm_arg(args.last(), env));
        let st = store_rax(base + 8 * n);
        let u1 = set_reg(u, Reg::Rax, operand_word(u, args.last(), env));
        let slot = MemRef { reg: Reg::Rsp, offset: (base + 8 * n) as i32 };
        let u2 = store(u1, slot, u1.rax);
        lemma_run_one(mov, u, w);
        lemma_run_one(st, u1, w);
        lemma_run_concat(seq![mov], seq![st], u, w);
        assert(seq![mov] + seq![st] =~= seq![mov, st]);
        lemma_run_concat(store_args(dl, env, base), seq![mov, st], s, w);
        lemma_store_kept(u1, slot, u1.rax);
        assert(kept_all(u, u2));
        lemma_kept_all_trans(s, u, u2);
        assert forall|k: int| 0 <= k < args.len() implies legal_word(
            #[trigger] u2.mem[signed(s.rsp) + ((base + 8 * k) as i32)],
        ) by {
            if k < n {
                assert(legal_word(u.mem[signed(s.rsp) + ((base + 8 * k) as i32)]));
            }
        }
    }
}

/// The copies of the arguments of a tail call leave the stack pointer
/// where it was and memory legal, where what they copy is legal.
pub proof fn lemma_move_args(n: nat, from: int, to: int, s: Cpu, w: World)
    requires
        forall|k: int|
            0 <= k < n ==> legal_word(#[trigger] s.mem[signed(s.rsp) + ((from + 8 * k) as i32)]),
    ensures
        run(move_args(n, from, to), s, w) matches Flow::Next(u) && u.rsp == s.rsp && kept_all(
            s,
            u,
        ),
    decreases n,
{
    if n == 0 {
        assert(move_args(n, from, to) =~= Seq::<Op>::empty());
    } else {
        let m = (n - 1) as nat;
        lemma_move_args(m, from, to, s, w);
        let u = run(move_args(m, from, to), s, w)->Next_0;
        let ld = load_rax(from + 8 * m);
        let st = store_rax(to + 8 * m);
        let src = MemRef { reg: Reg::Rsp, offset: (from + 8 * m) as i32 };
        let dst = MemRef { reg: Reg::Rsp, offset: (to + 8 * m) as i32 };
        let u1 = set_reg(u, Reg::Rax, load(u, src));
        let u2 = store(u1, dst, u1.rax);
        assert(legal_word(s.mem[signed(s.rsp) + ((from + 8 * m) as i32)]));
        assert(legal_word(u.mem[signed(s.rsp) + ((from + 8 * m) as i32)]));
        lemma_run_one(ld, u, w);
        lemma_run_one(st, u1, w);
        lemma_run_concat(seq![ld], seq![st], u, w);
        assert(seq![ld] + seq![st] =~= seq![ld, st]);
        lemma_run_concat(move_args(m, from, to), seq![ld, st], s, w);
        lemma_store_kept(u1, dst, u1.rax);
        lemma_kept_all_trans(s, u, u2);
    }
}

/// The words of a frame size and of its negation.
pub proof fn lemma_frame_words(s: Cpu, size: u32)
    requires
        room(s),
        size <= MAX_FRAME + 8,
    ensures
        signed(word(size as int)) == size,
        signed(word(signed(s.rsp) - size)) == signed(s.rsp) - size,
        word(signed(s.rsp) - size + size) == s.rsp,
        word(signed(s.rsp)) == s.rsp,
{
}

/// A call between the two moves of the stack pointer: it leaves the stack
/// pointer where it was, a legal tagged value in `rax`, and legal what was
/// legal at and above the frame.
pub proof fn lemma_framed_call(l: Name, size: u32, s: Cpu, w: World)
    requires
        well_behaved(w),
        room(s),
        size <= MAX_FRAME + 8,
    ensures
        run(
            seq![
                Op::Sub(BinArgs::ToReg(Reg::Rsp, Arg32::Unsigned(size))),
                Op::Call(l),
                Op::Add(BinArgs::ToReg(Reg::Rsp, Arg32::Unsigned(size))),
            ],
            s,
            w,
        ) matches Flow::Next(u) && u.rsp == s.rsp && legal_word(u.rax) && kept(
            s,
            u,
            signed(s.rsp) - size,
        ),
{
    let sub = Op::Sub(BinArgs::ToReg(Reg::Rsp, Arg32::Unsigned(size)));
    let call = Op::Call(l);
    let add = Op::Add(BinArgs::ToReg(Reg::Rsp, Arg32::Unsigned(size)));
    let ops = seq![sub, call, add];
    lemma_frame_words(s, size);
    let s1 = alu(Alu::Sub, s, BinArgs::ToReg(Reg::Rsp, Arg32::Unsigned(size)));
    assert(s1.rsp == word(signed(s.rsp) - size));
    assert(s1.mem == s.mem);
    let s2 = w(l, s1);
    assert(s2.rsp == s1.rsp);
    let s3 = alu(Alu::Add, s2, BinArgs::ToReg(Reg::Rsp, Arg32::Unsigned(size)));
    assert(s3.rsp == s.rsp);
    assert(s3.rax == s2.rax);
    assert(s3.mem == s2.mem);
    let r1 = ops.drop_first();
    let r2 = r1.drop_first();
    let r3 = r2.drop_first();
    assert(r3.len() == 0);
    assert(r1[0] == call);
    assert(r2[0] == add);
    reveal_with_fuel(run, 4);
    assert(run(ops, s, w) == Flow::Next(s3));
    assert forall|a: int| a >= signed(s.rsp) - size && legal_word(s.mem[a]) implies legal_word(
        #[trigger] s3.mem[a],
    ) by {
        assert(legal_word(s1.mem[a]));
        assert(legal_word(s2.mem[a]));
    }
}

/// What the code of a primitive that writes no memory must come to: it is
/// left through its end with a legal tagged value in `rax`, or by a jump to
/// a trap; the stack pointer and the memory are as they were.
pub open spec fn clean(f: Flow, s: Cpu) -> bool {
    match f {
        Flow::Next(u) => same_frame(s, u) && legal_word(u.rax),
        Flow::Jump(l, u) => trap_label(l) && same_frame(s, u),
        Flow::Return(_) => false,
    }
}

/// What is clean is disciplined.
pub proof fn lemma_clean_disciplined(f: Flow, s: Cpu, depth: nat)
    requires
        clean(f, s),
    ensures
        disciplined(f, s, depth),
{
}

/// The labels of the checks are traps.
pub proof fn lemma_check_label(c: Check)
    ensures
        trap_label(check_label(c)),
        trap_label(overflow_label()),
{
}

/// A block without labels after a block that is left by a jump to a trap,
/// if not through its end.
pub proof fn lemma_then(a: Seq<Op>, b: Seq<Op>, s: Cpu, w: World)
    requires
        label_free(b),
        run(a, s, w) matches Flow::Jump(l, _) ==> trap_label(l),
    ensures
        run(a + b, s, w) == (match run(a, s, w) {
            Flow::Next(t) => run(b, t, w),
            f => f,
        }),
{
    lemma_no_labels(b, 0, 0);
    lemma_seq(a, b, s, w, 0, 0);
}

/// An operand loaded into `rax` and checked: where the check passes, the
/// operand stands in `rax`; else the trap of the check is jumped to, with
/// the operand in `rax`.
pub proof fn lemma_load_checked(c: Check, a: ImmTerm, env: Seq<(Name, i32)>, s: Cpu, w: World)
    ensures
        match run(seq![mov_reg(Reg::Rax, imm_arg(a, env))] + check_ops(c, Reg::Rax), s, w) {
            Flow::Next(t) => same_frame(s, t) && t.rax == operand_word(s, a, env) && t.rax % 2
                != check_bit(c),
            Flow::Jump(l, t) => l == check_label(c) && same_frame(s, t) && t.rax == operand_word(
                s,
                a,
                env,
            ) && t.rax % 2 == check_bit(c),
            Flow::Return(_) => false,
        },
{
    let m1 = seq![mov_reg(Reg::Rax, imm_arg(a, env))];
    let s1 = set_reg(s, Reg::Rax, operand_word(s, a, env));
    lemma_run_one(m1[0], s, w);
    assert(run(m1, s, w) == Flow::Next(s1));
    lemma_check(c, Reg::Rax, s1, w);
    lemma_run_concat(m1, check_ops(c, Reg::Rax), s, w);
}

/// The first of two operands that fails a check, where one does: the left
/// one, else the right one.
pub open spec fn offender(c: Check, a: ImmTerm, b: ImmTerm, env: Seq<(Name, i32)>, s: Cpu) -> u64 {
    if operand_word(s, a, env) % 2 == check_bit(c) {
        operand_word(s, a, env)
    } else {
        operand_word(s, b, env)
    }
}

/// The operands change places.
pub proof fn lemma_swap(s: Cpu, w: World)
    ensures
        run(swap_ops(), s, w) matches Flow::Next(t) && same_frame(s, t) && t.rax == s.rdx && t.rdx
            == s.rax,
{
    let ops = swap_ops();
    let s1 = set_reg(s, Reg::Rcx, s.rax);
    let s2 = set_reg(s1, Reg::Rax, s1.rdx);
    let s3 = set_reg(s2, Reg::Rdx, s2.rcx);
    lemma_run_one(ops[0], s, w);
    lemma_run_one(ops[1], s1, w);
    lemma_run_one(ops[2], s2, w);
    lemma_run_concat(seq![ops[0]], seq![ops[1]], s, w);
    lemma_run_concat(seq![ops[0]] + seq![ops[1]], seq![ops[2]], s, w);
    assert(seq![ops[0]] + seq![ops[1]] + seq![ops[2]] =~= ops);
    assert(run(ops, s, w) == Flow::Next(s3));
}

/// Two operands loaded and checked, the left one first: where both checks
/// pass, the operands stand in `rax` and `rdx`; else the trap of the check
/// is jumped to, with the first operand that fails the check in `rax`.
pub proof fn lemma_both_checked(
    c: Check,
    a: ImmTerm,
    b: ImmTerm,
    env: Seq<(Name, i32)>,
    s: Cpu,
    w: World,
)
    ensures
        match run(checked_operands(c, a, b, env), s, w) {
            Flow::Next(t) => same_frame(s, t) && t.rax == operand_word(s, a, env) && t.rdx
                == operand_word(s, b, env) && t.rax % 2 != check_bit(c) && t.rdx % 2 != check_bit(
                c,
            ),
            Flow::Jump(l, t) => l == check_label(c) && same_frame(s, t) && t.rax == offender(
                c,
                a,
                b,
                env,
                s,
            ) && t.rax % 2 == check_bit(c),
            Flow::Return(_) => false,
        },
{
    let front = seq![mov_reg(Reg::Rax, imm_arg(a, env))] + check_ops(c, Reg::Rax);
    let m2 = seq![mov_reg(Reg::Rdx, Arg64::Reg(Reg::Rax)), mov_reg(Reg::Rax, imm_arg(b, env))];
    let c2 = check_ops(c, Reg::Rax);
    let sw = swap_ops();
    lemma_load_checked(c, a, env, s, w);
    lemma_check_label(c);
    assert(label_free(m2));
    assert(label_free(c2));
    assert(label_free(sw));
    lemma_then(front, m2, s, w);
    match run(front, s, w) {
        Flow::Next(t) => {
            lemma_operand_word(s, t, b, env);
            let t1 = set_reg(t, Reg::Rdx, t.rax);
            lemma_operand_word(s, t1, b, env);
            let t2 = set_reg(t1, Reg::Rax, operand_word(s, b, env));
            lemma_run_one(m2[0], t, w);
            lemma_run_one(m2[1], t1, w);
            lemma_run_concat(seq![m2[0]], seq![m2[1]], t, w);
            assert(seq![m2[0]] + seq![m2[1]] =~= m2);
            assert(run(m2, t, w) == Flow::Next(t2));
            assert(run(front + m2, s, w) == Flow::Next(t2));
            lemma_check(c, Reg::Rax, t2, w);
            lemma_then(front + m2, c2, s, w);
            match run(c2, t2, w) {
                Flow::Next(t3) => {
                    lemma_swap(t3, w);
                },
                _ => {},
            }
            lemma_then(front + m2 + c2, sw, s, w);
        },
        _ => {
            lemma_then(front + m2, c2, s, w);
            lemma_then(front + m2 + c2, sw, s, w);
        },
    }
}

/// The sum, the difference and the product of even numbers are even, in 64
/// bits too.
pub proof fn lemma_even_results(x: u64, y: u64)
    requires
        x % 2 == 0,
    ensures
        y % 2 == 0 ==> word(signed(x) + signed(y)) % 2 == 0,
        y % 2 == 0 ==> word(signed(x) - signed(y)) % 2 == 0,
        word(signed(x) * signed(y)) % 2 == 0,
        word(signed(x) + 2) % 2 == 0,
        word(signed(x) - 2) % 2 == 0,
{
    let a = signed(x);
    let b = signed(y);
    assert(a % 2 == 0);
    let k = a / 2;
    assert(a == 2 * k);
    assert(a * b == 2 * (k * b)) by (nonlinear_arith)
        requires
            a == 2 * k,
    ;
}

/// The last instructions of an arithmetic primitive on even words leave an
/// even word in `rax`, or jump to the overflow trap.
pub proof fn lemma_arith_tail_clean(op: Op, s: Cpu, w: World, y: u64)
    requires
        s.rax % 2 == 0,
        op == Op::Add(BinArgs::ToReg(Reg::Rax, Arg32::Reg(Reg::Rdx))) || op == Op::Sub(
            BinArgs::ToReg(Reg::Rax, Arg32::Reg(Reg::Rdx)),
        ) ==> s.rdx % 2 == 0,
        op == Op::Add(BinArgs::ToReg(Reg::Rax, Arg32::Reg(Reg::Rdx))) || op == Op::Sub(
            BinArgs::ToReg(Reg::Rax, Arg32::Reg(Reg::Rdx)),
        ) || op == Op::IMul(BinArgs::ToReg(Reg::Rax, Arg32::Reg(Reg::Rdx))) || op == Op::Add(
            BinArgs::ToReg(Reg::Rax, Arg32::Signed(2)),
        ) || op == Op::Sub(BinArgs::ToReg(Reg::Rax, Arg32::Signed(2))),
    ensures
        clean(run(seq![op, Op::Jo(overflow_label())], s, w), s),
{
    let ops = seq![op, Op::Jo(overflow_label())];
    let r1 = ops.drop_first();
    let r2 = r1.drop_first();
    assert(r2.len() == 0);
    assert(r1[0] == ops[1]);
    reveal_with_fuel(run, 3);
    reveal_with_fuel(find_label, 2);
    assert(word(2) == 2);
    lemma_even_results(s.rax, s.rdx);
    lemma_even_results(s.rax, 2);
    lemma_check_label(Check::Arith);
}

/// What the bit operations of the primitives make of the booleans.
pub proof fn lemma_boolean_bits(x: u64, y: u64)
    ensures
        SNAKE_TRU ^ SIGN_BIT == SNAKE_FLS,
        SNAKE_FLS ^ SIGN_BIT == SNAKE_TRU,
        (x == SNAKE_TRU || x == SNAKE_FLS) && (y == SNAKE_TRU || y == SNAKE_FLS) ==> ((x & y)
            == SNAKE_TRU || (x & y) == SNAKE_FLS) && ((x | y) == SNAKE_TRU || (x | y)
            == SNAKE_FLS),
        (((x ^ SNAKE_FLS) << 63) | SNAKE_FLS) == SNAKE_TRU || (((x ^ SNAKE_FLS) << 63)
            | SNAKE_FLS) == SNAKE_FLS,
        (((x & SNAKE_FLS) << 63) | SNAKE_FLS) == SNAKE_TRU || (((x & SNAKE_FLS) << 63)
            | SNAKE_FLS) == SNAKE_FLS,
        (x | SNAKE_FLS) == SNAKE_TRU || (x | SNAKE_FLS) == SNAKE_FLS,
        ((x ^ SIGN_BIT) | SNAKE_FLS) == SNAKE_TRU || ((x ^ SIGN_BIT) | SNAKE_FLS) == SNAKE_FLS,
{
    assert(0xFFFF_FFFF_FFFF_FFFFu64 ^ 0x8000_0000_0000_0000u64 == 0x7FFF_FFFF_FFFF_FFFFu64)
        by (bit_vector);
    assert(0x7FFF_FFFF_FFFF_FFFFu64 ^ 0x8000_0000_0000_0000u64 == 0xFFFF_FFFF_FFFF_FFFFu64)
        by (bit_vector);
    assert((x == 0xFFFF_FFFF_FFFF_FFFFu64 || x == 0x7FFF_FFFF_FFFF_FFFFu64) && (y
        == 0xFFFF_FFFF_FFFF_FFFFu64 || y == 0x7FFF_FFFF_FFFF_FFFFu64) ==> ((x & y)
        == 0xFFFF_FFFF_FFFF_FFFFu64 || (x & y) == 0x7FFF_FFFF_FFFF_FFFFu64) && ((x | y)
        == 0xFFFF_FFFF_FFFF_FFFFu64 || (x | y) == 0x7FFF_FFFF_FFFF_FFFFu64)) by (bit_vector);
    assert((((x ^ 0x7FFF_FFFF_FFFF_FFFFu64) << 63) | 0x7FFF_FFFF_FFFF_FFFFu64)
        == 0xFFFF_FFFF_FFFF_FFFFu64 || (((x ^ 0x7FFF_FFFF_FFFF_FFFFu64) << 63)
        | 0x7FFF_FFFF_FFFF_FFFFu64) == 0x7FFF_FFFF_FFFF_FFFFu64) by (bit_vector);
    assert((((x & 0x7FFF_FFFF_FFFF_FFFFu64) << 63) | 0x7FFF_FFFF_FFFF_FFFFu64)
        == 0xFFFF_FFFF_FFFF_FFFFu64 || (((x & 0x7FFF_FFFF_FFFF_FFFFu64) << 63)
        | 0x7FFF_FFFF_FFFF_FFFFu64) == 0x7FFF_FFFF_FFFF_FFFFu64) by (bit_vector);
    assert((x | 0x7FFF_FFFF_FFFF_FFFFu64) == 0xFFFF_FFFF_FFFF_FFFFu64 || (x
        | 0x7FFF_FFFF_FFFF_FFFFu64) == 0x7FFF_FFFF_FFFF_FFFFu64) by (bit_vector);
    assert(((x ^ 0x8000_0000_0000_0000u64) | 0x7FFF_FFFF_FFFF_FFFFu64)
        == 0xFFFF_FFFF_FFFF_FFFFu64 || ((x ^ 0x8000_0000_0000_0000u64)
        | 0x7FFF_FFFF_FFFF_FFFFu64) == 0x7FFF_FFFF_FFFF_FFFFu64) by (bit_vector);
}

/// The arithmetic primitives are clean.
pub proof fn lemma_arith_clean(p: Prim, args: Seq<ImmTerm>, env: Seq<(Name, i32)>, s: Cpu, w: World)
    requires
        p == Prim::Add || p == Prim::Sub || p == Prim::Mul || p == Prim::Add1 || p == Prim::Sub1,
    ensures
        clean(
            run(
                match p {
                    Prim::Add | Prim::Sub => add_sub_ops(p, args[0], args[1], env),
                    Prim::Mul => mul_ops(args[0], args[1], env),
                    _ => add1_sub1_ops(p, args[0], env),
                },
                s,
                w,
            ),
            s,
        ),
{
    let a = args[0];
    let b = args[1];
    let jo = Op::Jo(overflow_label());
    lemma_check_label(Check::Arith);
    match p {
        Prim::Add | Prim::Sub => {
            let front = checked_operands(Check::Arith, a, b, env);
            let regs = BinArgs::ToReg(Reg::Rax, Arg32::Reg(Reg::Rdx));
            let op = if p == Prim::Add {
                Op::Add(regs)
            } else {
                Op::Sub(regs)
            };
            let tail = seq![op, jo];
            lemma_both_checked(Check::Arith, a, b, env, s, w);
            assert(label_free(tail));
            lemma_then(front, tail, s, w);
            if let Flow::Next(t) = run(front, s, w) {
                lemma_arith_tail_clean(op, t, w, t.rdx);
            }
        },
        Prim::Mul => {
            let front = checked_operands(Check::Arith, a, b, env);
            let sar = Op::Sar(BinArgs::ToReg(Reg::Rdx, Arg32::Signed(1)));
            let op = Op::IMul(BinArgs::ToReg(Reg::Rax, Arg32::Reg(Reg::Rdx)));
            let tail = seq![op, jo];
            lemma_both_checked(Check::Arith, a, b, env, s, w);
            assert(label_free(seq![sar]));
            assert(label_free(tail));
            lemma_then(front, seq![sar], s, w);
            assert(mul_ops(a, b, env) =~= front + seq![sar] + tail);
            if let Flow::Next(t) = run(front, s, w) {
                let t1 = alu(Alu::Sar, t, BinArgs::ToReg(Reg::Rdx, Arg32::Signed(1)));
                lemma_run_one(sar, t, w);
                lemma_then(front + seq![sar], tail, s, w);
                lemma_arith_tail_clean(op, t1, w, t1.rdx);
            } else {
                lemma_then(front + seq![sar], tail, s, w);
            }
        },
        _ => {
            let front = seq![mov_reg(Reg::Rax, imm_arg(a, env))] + check_ops(
                Check::Arith,
                Reg::Rax,
            );
            let two = BinArgs::ToReg(Reg::Rax, Arg32::Signed(2));
            let op = if p == Prim::Add1 {
                Op::Add(two)
            } else {
                Op::Sub(two)
            };
            let tail = seq![op, jo];
            lemma_load_checked(Check::Arith, a, env, s, w);
            assert(label_free(tail));
            lemma_then(front, tail, s, w);
            if let Flow::Next(t) = run(front, s, w) {
                lemma_arith_tail_clean(op, t, w, 2);
            }
        },
    }
}

/// The logical primitives are clean on legal operands.
pub proof fn lemma_logic_clean(p: Prim, args: Seq<ImmTerm>, env: Seq<(Name, i32)>, s: Cpu, w: World)
    requires
        p == Prim::Not || p == Prim::And || p == Prim::Or,
        legal_word(operand_word(s, args[0], env)),
        p != Prim::Not ==> legal_word(operand_word(s, args[1], env)),
    ensures
        clean(
            run(
                match p {
                    Prim::Not => not_ops(args[0], env),
                    _ => and_or_ops(p, args[0], args[1], env),
                },
                s,
                w,
            ),
            s,
        ),
{
    let a = args[0];
    let b = args[1];
    lemma_check_label(Check::Logic);
    if p == Prim::Not {
        let front = seq![mov_reg(Reg::Rax, imm_arg(a, env))] + check_ops(Check::Logic, Reg::Rax);
        let m = mov_reg(Reg::Rdx, Arg64::Unsigned(SIGN_BIT));
        let x = Op::Xor(BinArgs::ToReg(Reg::Rax, Arg32::Reg(Reg::Rdx)));
        let tail = seq![m, x];
        lemma_load_checked(Check::Logic, a, env, s, w);
        assert(label_free(tail));
        lemma_then(front, tail, s, w);
        if let Flow::Next(t) = run(front, s, w) {
            lemma_boolean_bits(t.rax, t.rax);
            let r1 = tail.drop_first();
            let r2 = r1.drop_first();
            assert(r2.len() == 0);
            assert(r1[0] == x);
            reveal_with_fuel(run, 3);
        }
    } else {
        let front = checked_operands(Check::Logic, a, b, env);
        let regs = BinArgs::ToReg(Reg::Rax, Arg32::Reg(Reg::Rdx));
        let op = if p == Prim::And {
            Op::And(regs)
        } else {
            Op::Or(regs)
        };
        lemma_both_checked(Check::Logic, a, b, env, s, w);
        assert(label_free(seq![op]));
        lemma_then(front, seq![op], s, w);
        if let Flow::Next(t) = run(front, s, w) {
            lemma_boolean_bits(t.rax, t.rdx);
            lemma_run_one(op, t, w);
        }
    }
}

/// The tests of the tag are clean.
pub proof fn lemma_is_tag_clean(p: Prim, a: ImmTerm, env: Seq<(Name, i32)>, s: Cpu, w: World)
    requires
        p == Prim::IsNum || p == Prim::IsBool,
    ensures
        clean(run(is_tag_ops(p, a, env), s, w), s),
{
    let ops = is_tag_ops(p, a, env);
    let r1 = ops.drop_first();
    let r2 = r1.drop_first();
    let r3 = r2.drop_first();
    let r4 = r3.drop_first();
    let r5 = r4.drop_first();
    assert(r5.len() == 0);
    assert(r1[0] == ops[1]);
    assert(r2[0] == ops[2]);
    assert(r3[0] == ops[3]);
    assert(r4[0] == ops[4]);
    reveal_with_fuel(run, 6);
    assert(word(63) == 63);
    lemma_boolean_bits(operand_word(s, a, env), 0);
}

/// The two shifts and the subtraction of an ordering comparison change
/// registers and flags only.
pub proof fn lemma_difference_tail(reverse: bool, s: Cpu, w: World)
    ensures
        run(
            seq![
                Op::Sar(BinArgs::ToReg(Reg::Rax, Arg32::Signed(1))),
                Op::Sar(BinArgs::ToReg(Reg::Rdx, Arg32::Signed(1))),
            ] + (if reverse {
                seq![
                    Op::Sub(BinArgs::ToReg(Reg::Rdx, Arg32::Reg(Reg::Rax))),
                    mov_reg(Reg::Rax, Arg64::Reg(Reg::Rdx)),
                ]
            } else {
                seq![Op::Sub(BinArgs::ToReg(Reg::Rax, Arg32::Reg(Reg::Rdx)))]
            }),
            s,
            w,
        ) matches Flow::Next(t) && same_frame(s, t),
{
    let sars = seq![
        Op::Sar(BinArgs::ToReg(Reg::Rax, Arg32::Signed(1))),
        Op::Sar(BinArgs::ToReg(Reg::Rdx, Arg32::Signed(1))),
    ];
    let s1 = alu(Alu::Sar, s, BinArgs::ToReg(Reg::Rax, Arg32::Signed(1)));
    let s2 = alu(Alu::Sar, s1, BinArgs::ToReg(Reg::Rdx, Arg32::Signed(1)));
    lemma_run_one(sars[0], s, w);
    lemma_run_one(sars[1], s1, w);
    lemma_run_concat(seq![sars[0]], seq![sars[1]], s, w);
    assert(seq![sars[0]] + seq![sars[1]] =~= sars);
    assert(run(sars, s, w) == Flow::Next(s2));
    if reverse {
        let sub = Op::Sub(BinArgs::ToReg(Reg::Rdx, Arg32::Reg(Reg::Rax)));
        let mov = mov_reg(Reg::Rax, Arg64::Reg(Reg::Rdx));
        let s3 = alu(Alu::Sub, s2, BinArgs::ToReg(Reg::Rdx, Arg32::Reg(Reg::Rax)));
        lemma_run_one(sub, s2, w);
        lemma_run_one(mov, s3, w);
        lemma_run_concat(seq![sub], seq![mov], s2, w);
        assert(seq![sub] + seq![mov] =~= seq![sub, mov]);
        lemma_run_concat(sars, seq![sub, mov], s, w);
    } else {
        let sub = Op::Sub(BinArgs::ToReg(Reg::Rax, Arg32::Reg(Reg::Rdx)));
        lemma_run_one(sub, s2, w);
        lemma_run_concat(sars, seq![sub], s, w);
    }
}

/// The turn of a sign into a boolean leaves a boolean in `rax`.
pub proof fn lemma_sign_to_boolean(negative: bool, s: Cpu, w: World)
    ensures
        run(
            if negative {
                is_neg_ops()
            } else {
                is_non_neg_ops()
            },
            s,
            w,
        ) matches Flow::Next(t) && same_frame(s, t) && (t.rax == SNAKE_TRU || t.rax == SNAKE_FLS),
{
    lemma_boolean_bits(s.rax, 0);
    if negative {
        let ops = is_neg_ops();
        let s1 = set_reg(s, Reg::Rdx, SNAKE_FLS);
        lemma_run_one(ops[0], s, w);
        lemma_run_one(ops[1], s1, w);
        lemma_run_concat(seq![ops[0]], seq![ops[1]], s, w);
        assert(seq![ops[0]] + seq![ops[1]] =~= ops);
    } else {
        let ops = is_non_neg_ops();
        let s1 = set_reg(s, Reg::Rdx, SIGN_BIT);
        let s2 = alu(Alu::Xor, s1, BinArgs::ToReg(Reg::Rax, Arg32::Reg(Reg::Rdx)));
        let s3 = set_reg(s2, Reg::Rdx, SNAKE_FLS);
        lemma_run_one(ops[0], s, w);
        lemma_run_one(ops[1], s1, w);
        lemma_run_one(ops[2], s2, w);
        lemma_run_one(ops[3], s3, w);
        lemma_run_concat(seq![ops[0]], seq![ops[1]], s, w);
        lemma_run_concat(seq![ops[0]] + seq![ops[1]], seq![ops[2]], s, w);
        lemma_run_concat(seq![ops[0]] + seq![ops[1]] + seq![ops[2]], seq![ops[3]], s, w);
        assert(seq![ops[0]] + seq![ops[1]] + seq![ops[2]] + seq![ops[3]] =~= ops);
    }
}

/// The ordering comparisons are clean.
pub proof fn lemma_order_clean(
    p: Prim,
    a: ImmTerm,
    b: ImmTerm,
    env: Seq<(Name, i32)>,
    s: Cpu,
    w: World,
)
    requires
        p == Prim::Lt || p == Prim::Gt || p == Prim::Le || p == Prim::Ge,
    ensures
        clean(run(order_ops(p, a, b, env), s, w), s),
{
    let reverse = p == Prim::Gt || p == Prim::Le;
    let negative = p == Prim::Lt || p == Prim::Gt;
    let front = checked_operands(Check::Cmp, a, b, env);
    let middle = seq![
        Op::Sar(BinArgs::ToReg(Reg::Rax, Arg32::Signed(1))),
        Op::Sar(BinArgs::ToReg(Reg::Rdx, Arg32::Signed(1))),
    ] + (if reverse {
        seq![
            Op::Sub(BinArgs::ToReg(Reg::Rdx, Arg32::Reg(Reg::Rax))),
            mov_reg(Reg::Rax, Arg64::Reg(Reg::Rdx)),
        ]
    } else {
        seq![Op::Sub(BinArgs::ToReg(Reg::Rax, Arg32::Reg(Reg::Rdx)))]
    });
    let last = if negative {
        is_neg_ops()
    } else {
        is_non_neg_ops()
    };
    lemma_check_label(Check::Cmp);
    lemma_both_checked(Check::Cmp, a, b, env, s, w);
    assert(label_free(middle)) by {
        assert forall|i: int| 0 <= i < middle.len() implies !(#[trigger] middle[i] is Label) by {
            if i >= 2 {
                if reverse {
                    assert(i == 2 || i == 3);
                } else {
                    assert(i == 2);
                }
            }
        }
    }
    assert(label_free(last));
    assert(order_ops(p, a, b, env) =~= front + middle + last);
    lemma_then(front, middle, s, w);
    if let Flow::Next(t) = run(front, s, w) {
        lemma_difference_tail(reverse, t, w);
    }
    lemma_then(front + middle, last, s, w);
    if let Flow::Next(t) = run(front, s, w) {
        let t2 = run(middle, t, w)->Next_0;
        lemma_sign_to_boolean(negative, t2, w);
    }
}

/// The tests of equality are clean.
pub proof fn lemma_equality_clean(
    p: Prim,
    a: ImmTerm,
    b: ImmTerm,
    env: Seq<(Name, i32)>,
    n: nat,
    s: Cpu,
    w: World,
)
    requires
        p == Prim::Eq || p == Prim::Neq,
    ensures
        clean(run(equality_ops(p, a, b, env, n), s, w), s),
{
    let yes = numbered("true_"@, n);
    let done = numbered("cmp_done_"@, n);
    let ops = equality_ops(p, a, b, env, n);
    let head = seq![ops[0], ops[1], ops[2]];
    let rest = seq![ops[3], ops[4], ops[5], ops[6], ops[7], ops[8]];
    assert(ops =~= head + rest);
    let s1 = set_reg(s, Reg::Rax, operand_word(s, a, env));
    lemma_operand_word(s, s1, b, env);
    let s2 = set_reg(s1, Reg::Rdx, operand_word(s, b, env));
    let s3 = Cpu {
        zero: s2.rax == s2.rdx,
        overflow: alu_overflow(Alu::Sub, s2.rax, s2.rdx),
        ..s2
    };
    lemma_run_one(ops[0], s, w);
    lemma_run_one(ops[1], s1, w);
    lemma_run_one(ops[2], s2, w);
    lemma_run_concat(seq![ops[0]], seq![ops[1]], s, w);
    lemma_run_concat(seq![ops[0]] + seq![ops[1]], seq![ops[2]], s, w);
    assert(seq![ops[0]] + seq![ops[1]] + seq![ops[2]] =~= head);
    assert(run(head, s, w) == Flow::Next(s3));
    lemma_run_concat(head, rest, s, w);
    assert(yes != done) by {
        if yes == done {
            lemma_numbered_distinct("true_"@, n, "cmp_done_"@, n);
            lemma_prefixes();
        }
    }
    let r1 = rest.drop_first();
    let r2 = r1.drop_first();
    let r3 = r2.drop_first();
    let r4 = r3.drop_first();
    let r5 = r4.drop_first();
    assert(r1 =~= seq![ops[4], ops[5], ops[6], ops[7], ops[8]]);
    assert(r2 =~= seq![ops[5], ops[6], ops[7], ops[8]]);
    assert(r3 =~= seq![ops[6], ops[7], ops[8]]);
    assert(r4 =~= seq![ops[7], ops[8]]);
    assert(r5 =~= seq![ops[8]]);
    assert(r5.drop_first() =~= Seq::<Op>::empty());
    assert(r1.skip(3) =~= r4);
    assert(r3.skip(3) =~= Seq::<Op>::empty());
    reveal_with_fuel(find_label, 4);
    assert(find_label(r1, yes) == 2);
    assert(find_label(r3, done) == 2);
    let taken = if p == Prim::Eq {
        s3.zero
    } else {
        !s3.zero
    };
    let t1 = set_reg(s3, Reg::Rax, SNAKE_TRU);
    lemma_run_one(ops[7], s3, w);
    lemma_run_one(ops[8], t1, w);
    lemma_run_concat(seq![ops[7]], seq![ops[8]], s3, w);
    assert(seq![ops[7]] + seq![ops[8]] =~= r4);
    assert(run(r4, s3, w) == Flow::Next(t1));
    let f1 = set_reg(s3, Reg::Rax, SNAKE_FLS);
    assert(run(Seq::<Op>::empty(), f1, w) == Flow::Next(f1));
    assert(run(r2, f1, w) == Flow::Next(f1)) by {
        reveal_with_fuel(run, 2);
    }
    assert(run(r1, s3, w) == Flow::Next(f1)) by {
        reveal_with_fuel(run, 2);
    }
    assert(run(rest, s3, w) == Flow::Next(if taken {
        t1
    } else {
        f1
    })) by {
        reveal_with_fuel(run, 2);
    }
}

/// The call of the printer leaves the stack pointer where it was and a
/// legal tagged value in `rax`.
pub proof fn lemma_print_disciplined(
    a: ImmTerm,
    env: Seq<(Name, i32)>,
    frame: Frame,
    s: Cpu,
    w: World,
    depth: nat,
)
    requires
        well_behaved(w),
        room(s),
        8 * depth <= frame.size <= MAX_FRAME,
    ensures
        disciplined(run(print_ops(a, env, frame), s, w), s, depth),
{
    let ops = print_ops(a, env, frame);
    let call = seq![ops[1], ops[2], ops[3]];
    assert(ops =~= seq![ops[0]] + call);
    let s1 = set_reg(s, Reg::Rdi, operand_word(s, a, env));
    lemma_run_one(ops[0], s, w);
    lemma_run_concat(seq![ops[0]], call, s, w);
    lemma_framed_call("print_snake_val"@, frame.size, s1, w);
    let u = run(call, s1, w)->Next_0;
    assert forall|x: int|
        x >= signed(s.rsp) - 8 * depth && legal_word(s.mem[x]) implies legal_word(
        #[trigger] u.mem[x],
    ) by {
        assert(s1.mem[x] == s.mem[x]);
    }
}

/// Every primitive is disciplined: on operands that hold legal tagged
/// values, its code leaves a legal tagged value in `rax`, or jumps to a
/// trap, and leaves the stack pointer where it was.
pub proof fn lemma_prim_disciplined(
    p: Prim,
    args: Seq<ImmTerm>,
    env: Seq<(Name, i32)>,
    counter: nat,
    frame: Frame,
    s: Cpu,
    w: World,
    depth: nat,
)
    requires
        args.len() == p.arity(),
        imms_bound(args, keys(env)),
        slots_legal(s, env),
        well_behaved(w),
        room(s),
        8 * depth <= frame.size <= MAX_FRAME,
    ensures
        disciplined(run(prim_ops(p, args, env, counter, frame), s, w), s, depth),
{
    let ops = prim_ops(p, args, env, counter, frame);
    assert(imm_bound(args[0], keys(env)));
    lemma_operand_legal(s, args[0], env);
    if p.arity() == 2 {
        assert(imm_bound(args[1], keys(env)));
        lemma_operand_legal(s, args[1], env);
    }
    match p {
        Prim::Add | Prim::Sub | Prim::Mul | Prim::Add1 | Prim::Sub1 => {
            lemma_arith_clean(p, args, env, s, w);
            lemma_clean_disciplined(run(ops, s, w), s, depth);
        },
        Prim::Not | Prim::And | Prim::Or => {
            lemma_logic_clean(p, args, env, s, w);
            lemma_clean_disciplined(run(ops, s, w), s, depth);
        },
        Prim::IsBool | Prim::IsNum => {
            lemma_is_tag_clean(p, args[0], env, s, w);
            lemma_clean_disciplined(run(ops, s, w), s, depth);
        },
        Prim::Lt | Prim::Gt | Prim::Le | Prim::Ge => {
            lemma_order_clean(p, args[0], args[1], env, s, w);
            lemma_clean_disciplined(run(ops, s, w), s, depth);
        },
        Prim::Eq | Prim::Neq => {
            lemma_equality_clean(p, args[0], args[1], env, counter + 1, s, w);
            lemma_clean_disciplined(run(ops, s, w), s, depth);
        },
        Prim::Print => {
            lemma_print_disciplined(args[0], env, frame, s, w, depth);
        },
    }
}

/// A call that returns is disciplined.
pub proof fn lemma_call_disciplined(
    f: Name,
    args: Seq<ImmTerm>,
    env: Seq<(Name, i32)>,
    frame: Frame,
    s: Cpu,
    w: World,
    depth: nat,
)
    requires
        imms_bound(args, keys(env)),
        slots_legal(s, env),
        well_behaved(w),
        room(s),
        8 * depth <= frame.size <= MAX_FRAME,
    ensures
        disciplined(run(call_ops(f, args, env, frame), s, w), s, depth),
{
    let gap = call_gap(frame);
    let stores = store_args(args, env, -(gap as int));
    let call = seq![
        Op::Sub(BinArgs::ToReg(Reg::Rsp, Arg32::Unsigned(gap))),
        Op::Call(fun_label(f)),
        Op::Add(BinArgs::ToReg(Reg::Rsp, Arg32::Unsigned(gap))),
    ];
    lemma_store_args(args, env, -(gap as int), s, w);
    let u = run(stores, s, w)->Next_0;
    lemma_run_concat(stores, call, s, w);
    lemma_framed_call(fun_label(f), gap, u, w);
    let v = run(call, u, w)->Next_0;
    assert forall|x: int|
        x >= signed(s.rsp) - 8 * depth && legal_word(s.mem[x]) implies legal_word(
        #[trigger] v.mem[x],
    ) by {
        assert(legal_word(u.mem[x]));
    }
}

/// A call in place of a return is disciplined: it leaves by a jump to the
/// function.
pub proof fn lemma_tail_call_disciplined(
    f: Name,
    args: Seq<ImmTerm>,
    env: Seq<(Name, i32)>,
    s: Cpu,
    w: World,
    depth: nat,
)
    requires
        imms_bound(args, keys(env)),
        slots_legal(s, env),
    ensures
        disciplined(run(tail_call_ops(f, args, env, depth), s, w), s, depth),
{
    let base = -8 * (depth + args.len());
    let stores = store_args(args, env, base);
    let moves = move_args(args.len(), base, 8);
    let jump = seq![Op::Jmp(fun_label(f))];
    lemma_store_args(args, env, base, s, w);
    let u = run(stores, s, w)->Next_0;
    lemma_move_args(args.len(), base, 8, u, w);
    let v = run(moves, u, w)->Next_0;
    lemma_run_concat(stores, moves, s, w);
    lemma_run_concat(stores + moves, jump, s, w);
    assert(jump.drop_first().len() == 0);
    reveal_with_fuel(run, 2);
    reveal_with_fuel(find_label, 1);
    assert(run(jump, v, w) == Flow::Jump(fun_label(f), v));
    lemma_fun_label(f);
    lemma_kept_all_trans(s, u, v);
}

/// What stands before the branches of an `if`, on a condition that holds
/// a legal tagged value: it goes on where the condition is `true`, jumps to
/// the second branch where it is `false`, and to the trap where it is
/// neither.
pub proof fn lemma_if_head(c: ImmTerm, env: Seq<(Name, i32)>, n: nat, s: Cpu, w: World)
    requires
        legal_word(operand_word(s, c, env)),
    ensures
        match run(
            seq![mov_reg(Reg::Rax, imm_arg(c, env))] + check_ops(Check::If, Reg::Rax) + seq![
                mov_reg(Reg::Rdx, Arg64::Unsigned(SNAKE_FLS)),
                Op::Cmp(BinArgs::ToReg(Reg::Rax, Arg32::Reg(Reg::Rdx))),
                Op::Je(numbered("else_"@, n)),
            ],
            s,
            w,
        ) {
            Flow::Next(t) => same_frame(s, t),
            Flow::Jump(l, t) => same_frame(s, t) && (l == numbered("else_"@, n) || trap_label(l)),
            Flow::Return(_) => false,
        },
{
    let front = seq![mov_reg(Reg::Rax, imm_arg(c, env))] + check_ops(Check::If, Reg::Rax);
    let tail = seq![
        mov_reg(Reg::Rdx, Arg64::Unsigned(SNAKE_FLS)),
        Op::Cmp(BinArgs::ToReg(Reg::Rax, Arg32::Reg(Reg::Rdx))),
        Op::Je(numbered("else_"@, n)),
    ];
    lemma_load_checked(Check::If, c, env, s, w);
    lemma_check_label(Check::If);
    assert(label_free(tail));
    lemma_then(front, tail, s, w);
    if let Flow::Next(t) = run(front, s, w) {
        let r1 = tail.drop_first();
        let r2 = r1.drop_first();
        assert(r1[0] == tail[1]);
        assert(r2[0] == tail[2]);
        assert(r2.drop_first().len() == 0);
        reveal_with_fuel(run, 4);
        reveal_with_fuel(find_label, 1);
    }
}

/// The discipline of the code of an expression: from a state in which
/// every slot of the environment holds a legal tagged value, and where the
/// functions that are called are well behaved, the code is left through its
/// end with a legal tagged value in `rax`, or by a jump to a trap or to a
/// function; in either case the stack pointer is where it was.
pub proof fn lemma_lower_disciplined(
    t: SeqTerm,
    env: Seq<(Name, i32)>,
    depth: nat,
    counter: nat,
    frame: Frame,
    s: Cpu,
    w: World,
)
    requires
        compilable(t, keys(env)),
        well_behaved(w),
        room(s),
        env_within(env, depth),
        slots_legal(s, env),
        8 * (depth + slots(t) + 1) <= frame.size <= MAX_FRAME,
    ensures
        disciplined(run(lower(t, env, depth, counter, frame), s, w), s, depth),
    decreases t, 1nat,
{
    let ops = lower(t, env, depth, counter, frame);
    let total = counter + labels(t);
    match t {
        SeqTerm::Imm(i) => {
            lemma_operand_legal(s, i, env);
            lemma_run_one(ops[0], s, w);
            assert(ops =~= seq![ops[0]]);
        },
        SeqTerm::Prim(p, args) => {
            lemma_prim_disciplined(p, args, env, counter, frame, s, w, depth);
        },
        SeqTerm::Let(x, b, body) => {
            let offset = -8 * (depth + 1);
            let env1 = env.push((x, offset as i32));
            let first = lower(*b, env, depth, counter, frame);
            let st = seq![store_rax(offset)];
            let second = lower(*body, env1, depth + 1, counter + labels(*b), frame);
            lemma_lower_disciplined(*b, env, depth, counter, frame, s, w);
            lemma_lower_labels(*body, env1, depth + 1, counter + labels(*b), frame);
            assert(label_free(st));
            lemma_no_labels(st, 0, 0);
            lemma_seq(first, st, s, w, 0, 0);
            match run(first, s, w) {
                Flow::Next(u1) => {
                    let slot = MemRef { reg: Reg::Rsp, offset: offset as i32 };
                    let u2 = store(u1, slot, u1.rax);
                    lemma_run_one(st[0], u1, w);
                    assert(run(first + st, s, w) == Flow::Next(u2));
                    lemma_seq(
                        first + st,
                        second,
                        s,
                        w,
                        counter + labels(*b),
                        counter + labels(*b) + labels(*body),
                    );
                    lemma_keys_push(env, x, offset as i32);
                    assert(env_within(env1, depth + 1)) by {
                        assert forall|k: int| 0 <= k < env1.len() implies -8 * (depth + 1) <= (
                        #[trigger] env1[k]).1 by {
                            if k < env.len() {
                                assert(env1[k] == env[k]);
                            }
                        }
                    }
                    assert(slots_legal(u2, env1)) by {
                        assert forall|k: int| 0 <= k < env1.len() implies legal_word(
                            u2.mem[signed(u2.rsp) + (#[trigger] env1[k]).1],
                        ) by {
                            if k < env.len() {
                                assert(env1[k] == env[k]);
                                let a = signed(s.rsp) + env[k].1;
                                assert(legal_word(s.mem[a]));
                                assert(legal_word(u1.mem[a]));
                            }
                        }
                    }
                    lemma_lower_disciplined(
                        *body,
                        env1,
                        depth + 1,
                        counter + labels(*b),
                        frame,
                        u2,
                        w,
                    );
                    match run(second, u2, w) {
                        Flow::Next(u3) => {
                            assert forall|a: int|
                                a >= signed(s.rsp) - 8 * depth && legal_word(
                                    s.mem[a],
                                ) implies legal_word(#[trigger] u3.mem[a]) by {
                                assert(legal_word(u1.mem[a]));
                                assert(legal_word(u2.mem[a]));
                            }
                        },
                        Flow::Jump(l, u3) => {
                            assert forall|a: int|
                                a >= signed(s.rsp) - 8 * depth && legal_word(
                                    s.mem[a],
                                ) implies legal_word(#[trigger] u3.mem[a]) by {
                                assert(legal_word(u1.mem[a]));
                                assert(legal_word(u2.mem[a]));
                            }
                        },
                        _ => {},
                    }
                },
                _ => {
                    lemma_seq(
                        first + st,
                        second,
                        s,
                        w,
                        counter + labels(*b),
                        counter + labels(*b) + labels(*body),
                    );
                },
            }
        },
        SeqTerm::If(c, a, b) => {
            lemma_if_disciplined(t, env, depth, counter, frame, s, w);
        },
        SeqTerm::ExternalCall(f, args, is_tail) => {
            if is_tail && args.len() <= frame.params {
                lemma_tail_call_disciplined(f, args, env, s, w, depth);
            } else {
                lemma_call_disciplined(f, args, env, frame, s, w, depth);
            }
        },
        SeqTerm::InternalTailCall(f, args) => {
            if args.len() <= frame.params {
                lemma_tail_call_disciplined(f, args, env, s, w, depth);
            } else {
                lemma_call_disciplined(f, args, env, frame, s, w, depth);
            }
        },
        _ => {},
    }
}

/// How the parts of an `if` lie: behind the first branch stand the jump
/// over the second branch, the label of the second branch, the second
/// branch, and the label of the end. A jump to the label of the second
/// branch goes on with the second branch, and the jump over it leaves
/// through the end.
pub proof fn lemma_if_layout(
    first: Seq<Op>,
    second: Seq<Op>,
    els: Name,
    done: Name,
    w: World,
    u: Cpu,
)
    requires
        els != done,
        find_label(first, els) == first.len(),
        find_label(second, els) == second.len(),
        find_label(second, done) == second.len(),
    ensures
        find_label(
            first + (seq![Op::Jmp(done), Op::Label(els)] + (second + seq![Op::Label(done)])),
            els,
        ) == first.len() + 1,
        (first + (seq![Op::Jmp(done), Op::Label(els)] + (second + seq![Op::Label(done)]))).skip(
            (first.len() + 2) as int,
        ) == second + seq![Op::Label(done)],
        run(seq![Op::Jmp(done), Op::Label(els)] + (second + seq![Op::Label(done)]), u, w)
            == Flow::Next(u),
{
    let end = seq![Op::Label(done)];
    let middle = seq![Op::Jmp(done), Op::Label(els)];
    let tail2 = second + end;
    let tail1 = middle + tail2;
    let rest = first + tail1;
    reveal_with_fuel(find_label, 3);
    assert(find_label(end, done) == 0);
    lemma_find_label_concat(second, end, done);
    assert(find_label(tail2, done) == second.len());
    let after_jump = seq![Op::Label(els)] + tail2;
    assert(tail1.drop_first() =~= after_jump);
    assert(after_jump.drop_first() =~= tail2);
    assert(find_label(after_jump, done) == 1 + second.len());
    assert(after_jump.skip((1 + second.len() + 1) as int) =~= Seq::<Op>::empty());
    assert(find_label(tail1, els) == 1);
    lemma_find_label_concat(first, tail1, els);
    assert(rest.skip((first.len() + 2) as int) =~= tail2);
    assert(run(tail1, u, w) == Flow::Next(u)) by {
        assert(run(Seq::<Op>::empty(), u, w) == Flow::Next(u));
        reveal_with_fuel(run, 2);
    }
}

/// The discipline of the code of an `if`.
pub proof fn lemma_if_disciplined(
    t: SeqTerm,
    env: Seq<(Name, i32)>,
    depth: nat,
    counter: nat,
    frame: Frame,
    s: Cpu,
    w: World,
)
    requires
        t is If,
        compilable(t, keys(env)),
        well_behaved(w),
        room(s),
        env_within(env, depth),
        slots_legal(s, env),
        8 * (depth + slots(t) + 1) <= frame.size <= MAX_FRAME,
    ensures
        disciplined(run(lower(t, env, depth, counter, frame), s, w), s, depth),
    decreases t, 0nat,
{
    let c = t->If_0;
    let a = *t->If_1;
    let b = *t->If_2;
    let n = counter + 1;
    let total = counter + labels(t);
    let els = numbered("else_"@, n);
    let done = numbered("done_"@, n);
    let head = seq![mov_reg(Reg::Rax, imm_arg(c, env))] + check_ops(Check::If, Reg::Rax) + seq![
        mov_reg(Reg::Rdx, Arg64::Unsigned(SNAKE_FLS)),
        Op::Cmp(BinArgs::ToReg(Reg::Rax, Arg32::Reg(Reg::Rdx))),
        Op::Je(els),
    ];
    let first = lower(a, env, depth, n, frame);
    let middle = seq![Op::Jmp(done), Op::Label(els)];
    let second = lower(b, env, depth, n + labels(a), frame);
    let end = seq![Op::Label(done)];
    let tail2 = second + end;
    let tail1 = middle + tail2;
    let rest = first + tail1;
    let ops = lower(t, env, depth, counter, frame);
    assert(ops =~= head + rest);
    assert(els != done) by {
        if els == done {
            lemma_prefixes();
            lemma_numbered_distinct("else_"@, n, "done_"@, n);
        }
    }
    lemma_lower_labels(a, env, depth, n, frame);
    lemma_lower_labels(b, env, depth, n + labels(a), frame);
    lemma_numbered_absent(first, n, n + labels(a), "else_"@, n);
    lemma_numbered_absent(second, n + labels(a), total, "else_"@, n);
    lemma_numbered_absent(second, n + labels(a), total, "done_"@, n);
    lemma_if_layout(first, second, els, done, w, s);
    lemma_operand_legal(s, c, env);
    lemma_if_head(c, env, n, s, w);
    lemma_labels_of_rest(a, b, env, depth, counter, frame);
    lemma_labels_of_tail(a, b, env, depth, counter, frame);
    lemma_end_labels(n, total, counter);
    match run(head, s, w) {
        Flow::Next(s1) => {
            lemma_run_concat(head, rest, s, w);
            lemma_slots_same(s, s1, env);
            lemma_lower_disciplined(a, env, depth, n, frame, s1, w);
            lemma_seq(first, tail1, s1, w, counter, total);
            if let Flow::Next(u) = run(first, s1, w) {
                lemma_if_layout(first, second, els, done, w, u);
            }
        },
        Flow::Jump(l, s1) => {
            if l == els {
                lemma_run_concat_resolve(head, rest, s, w);
                lemma_slots_same(s, s1, env);
                lemma_lower_disciplined(b, env, depth, n + labels(a), frame, s1, w);
                lemma_seq(second, end, s1, w, counter, total);
                if let Flow::Next(u) = run(second, s1, w) {
                    lemma_run_one(end[0], u, w);
                }
            } else {
                lemma_outer_absent(rest, counter, total, l);
                lemma_run_concat_jump(head, rest, s, w);
            }
        },
        _ => {},
    }
}

/// Slots that were legal are legal where the stack pointer and the memory
/// are the same.
pub proof fn lemma_slots_same(s: Cpu, t: Cpu, env: Seq<(Name, i32)>)
    requires
        slots_legal(s, env),
        same_frame(s, t),
    ensures
        slots_legal(t, env),
{
    assert forall|k: int| 0 <= k < env.len() implies legal_word(
        t.mem[signed(t.rsp) + (#[trigger] env[k]).1],
    ) by {
        assert(legal_word(s.mem[signed(s.rsp) + env[k].1]));
    }
}

/// The label at the end of an `if` is numbered between the bounds.
pub proof fn lemma_end_labels(n: nat, total: nat, counter: nat)
    requires
        n == counter + 1,
        n <= total,
    ensures
        labels_between(seq![Op::Label(numbered("done_"@, n))], counter, total),
        labels_between(
            seq![Op::Jmp(numbered("done_"@, n)), Op::Label(numbered("else_"@, n))],
            counter,
            total,
        ),
{
    assert(local_prefix("done_"@) && counter < n <= total);
    assert(local_prefix("else_"@) && counter < n <= total);
}

/// The labels of what follows the first branch of an `if` are numbered
/// between the bounds of the `if`.
pub proof fn lemma_labels_of_tail(
    a: SeqTerm,
    b: SeqTerm,
    env: Seq<(Name, i32)>,
    depth: nat,
    counter: nat,
    frame: Frame,
)
    ensures
        labels_between(
            seq![
                Op::Jmp(numbered("done_"@, counter + 1)),
                Op::Label(numbered("else_"@, counter + 1)),
            ] + (lower(b, env, depth, counter + 1 + labels(a), frame) + seq![
                Op::Label(numbered("done_"@, counter + 1)),
            ]),
            counter,
            counter + 1 + labels(a) + labels(b),
        ),
{
    let n = counter + 1;
    let total = n + labels(a) + labels(b);
    let second = lower(b, env, depth, n + labels(a), frame);
    lemma_lower_labels(b, env, depth, n + labels(a), frame);
    lemma_labels_widen(second, n + labels(a), total, counter, total);
    lemma_end_labels(n, total, counter);
    lemma_labels_concat(second, seq![Op::Label(numbered("done_"@, n))], counter, total);
    lemma_labels_concat(
        seq![Op::Jmp(numbered("done_"@, n)), Op::Label(numbered("else_"@, n))],
        second + seq![Op::Label(numbered("done_"@, n))],
        counter,
        total,
    );
}

/// The labels of what follows the head of an `if` are numbered between the
/// bounds of the `if`.
pub proof fn lemma_labels_of_rest(
    a: SeqTerm,
    b: SeqTerm,
    env: Seq<(Name, i32)>,
    depth: nat,
    counter: nat,
    frame: Frame,
)
    ensures
        labels_between(
            lower(a, env, depth, counter + 1, frame) + (seq![
                Op::Jmp(numbered("done_"@, counter + 1)),
                Op::Label(numbered("else_"@, counter + 1)),
            ] + (lower(b, env, depth, counter + 1 + labels(a), frame) + seq![
                Op::Label(numbered("done_"@, counter + 1)),
            ])),
            counter,
            counter + 1 + labels(a) + labels(b),
        ),
{
    let n = counter + 1;
    let total = n + labels(a) + labels(b);
    let first = lower(a, env, depth, n, frame);
    lemma_lower_labels(a, env, depth, n, frame);
    lemma_labels_widen(first, n, n + labels(a), counter, total);
    lemma_labels_of_tail(a, b, env, depth, counter, frame);
    lemma_labels_concat(
        first,
        seq![Op::Jmp(numbered("done_"@, n)), Op::Label(numbered("else_"@, n))] + (lower(
            b,
            env,
            depth,
            n + labels(a),
            frame,
        ) + seq![Op::Label(numbered("done_"@, n))]),
        counter,
        total,
    );
}

/// What a function must come to from the state `s` at its entry: it
/// returns with the stack pointer where it was and a legal tagged value in
/// `rax`, or it leaves by a jump to a trap or to another function, with the
/// stack pointer where it was.
pub open spec fn returns_well(f: Flow, s: Cpu) -> bool {
    match f {
        Flow::Return(u) => u.rsp == s.rsp && legal_word(u.rax),
        Flow::Jump(l, u) => outer_label(l) && u.rsp == s.rsp,
        Flow::Next(_) => false,
    }
}

/// A body and the return behind it.
pub proof fn lemma_body_returns(
    t: SeqTerm,
    env: Seq<(Name, i32)>,
    counter: nat,
    frame: Frame,
    s: Cpu,
    w: World,
)
    requires
        compilable(t, keys(env)),
        well_behaved(w),
        room(s),
        env_within(env, 0),
        slots_legal(s, env),
        8 * (slots(t) + 1) <= frame.size <= MAX_FRAME,
    ensures
        returns_well(run(lower(t, env, 0, counter, frame) + seq![Op::Ret], s, w), s),
{
    let body = lower(t, env, 0, counter, frame);
    let ret = seq![Op::Ret];
    lemma_lower_disciplined(t, env, 0, counter, frame, s, w);
    assert(label_free(ret));
    lemma_no_labels(ret, 0, 0);
    lemma_seq(body, ret, s, w, 0, 0);
    if let Flow::Next(u) = run(body, s, w) {
        lemma_run_one(ret[0], u, w);
    }
}

/// Stack discipline and tag invariant of a compiled function: entered
/// with legal tagged values in its parameter slots, and where the functions
/// that it calls are well behaved, the function returns with the stack
/// pointer where it was at its entry and with a legal tagged value in `rax`,
/// unless it leaves by a jump to a trap or, in a tail call, to another
/// function.
pub proof fn lemma_function_disciplined(d: SeqFunTerm, counter: nat, s: Cpu, w: World)
    requires
        fun_compilable(d),
        well_behaved(w),
        room(s),
        forall|i: int|
            0 <= i < d.params.len() ==> legal_word(#[trigger] s.mem[signed(s.rsp) + 8 * (i + 1)]),
    ensures
        returns_well(run(fun_ops(d, counter), s, w), s),
{
    let env = param_slots(d.params);
    let frame = frame_of(d.body, d.params.len());
    let label = seq![Op::Label(fun_label(d.name))];
    let rest = lower(d.body, env, 0, counter, frame) + seq![Op::Ret];
    assert(fun_ops(d, counter) =~= label + rest);
    lemma_run_one(label[0], s, w);
    lemma_run_concat(label, rest, s, w);
    assert(keys(env) =~= d.params);
    assert(slots_legal(s, env)) by {
        assert forall|k: int| 0 <= k < env.len() implies legal_word(
            s.mem[signed(s.rsp) + (#[trigger] env[k]).1],
        ) by {
            assert(env[k].1 == 8 * (k + 1));
            assert(legal_word(s.mem[signed(s.rsp) + 8 * (k + 1)]));
        }
    }
    lemma_body_returns(d.body, env, counter, frame, s, w);
}

/// Stack discipline and tag invariant of the main expression.
pub proof fn lemma_main_disciplined(t: SeqTerm, counter: nat, s: Cpu, w: World)
    requires
        compilable(t, Seq::empty()),
        frame_bytes(slots(t)) <= MAX_FRAME,
        well_behaved(w),
        room(s),
    ensures
        returns_well(run(main_ops(t, counter), s, w), s),
{
    let env: Seq<(Name, i32)> = Seq::empty();
    assert(keys(env) =~= Seq::<Name>::empty());
    lemma_body_returns(t, env, counter, frame_of(t, 0), s, w);
}

} // verus!
