//! What the instructions mean: a model of the processor on which the
//! properties of generated code are stated.
//!
//! A block of instructions runs from its first instruction on. A jump to a
//! label that stands later in the block goes on behind that label; any other
//! jump and a return leave the block. A call is taken as a whole: what the
//! callee does between the call and its return is given from outside, as a
//! function from the state at the call to the state at the return.

use crate::syntax::Name;
use crate::x86::{Arg32, Arg64, BinArgs, MemRef, MovArgs, Op, Reg, Reg32};
use vstd::prelude::*;

verus! {

/// The state of the processor: the registers, the two flags that generated
/// code tests, and the memory by address, in 64-bit words.
pub ghost struct Cpu {
    pub rax: u64,
    pub rcx: u64,
    pub rdx: u64,
    pub rsi: u64,
    pub rdi: u64,
    pub rsp: u64,
    pub zero: bool,
    pub overflow: bool,
    pub mem: Map<int, u64>,
}

/// What the functions that are called do: for each label and each state at
/// a call, the state when the call has returned.
pub type World = spec_fn(Name, Cpu) -> Cpu;

/// How a block is left.
pub ghost enum Flow {
    /// Through its end.
    Next(Cpu),
    /// By a jump to a label that does not stand later in the block.
    Jump(Name, Cpu),
    /// By a return.
    Return(Cpu),
}

/// The signed number with the bits of `x`.
pub open spec fn signed(x: u64) -> int {
    if x < 0x8000_0000_0000_0000 {
        x as int
    } else {
        x - 0x1_0000_0000_0000_0000
    }
}

/// The word with the bits of the signed number `i`, reduced to 64 bits.
pub open spec fn word(i: int) -> u64 {
    (i % 0x1_0000_0000_0000_0000) as u64
}

/// Whether a signed number fits in 64 bits.
pub open spec fn fits_word(i: int) -> bool {
    -0x8000_0000_0000_0000 <= i < 0x8000_0000_0000_0000
}

pub open spec fn reg(s: Cpu, r: Reg) -> u64 {
    match r {
        Reg::Rax => s.rax,
        Reg::Rcx => s.rcx,
        Reg::Rdx => s.rdx,
        Reg::Rsi => s.rsi,
        Reg::Rdi => s.rdi,
        Reg::Rsp => s.rsp,
    }
}

pub open spec fn set_reg(s: Cpu, r: Reg, v: u64) -> Cpu {
    match r {
        Reg::Rax => Cpu { rax: v, ..s },
        Reg::Rcx => Cpu { rcx: v, ..s },
        Reg::Rdx => Cpu { rdx: v, ..s },
        Reg::Rsi => Cpu { rsi: v, ..s },
        Reg::Rdi => Cpu { rdi: v, ..s },
        Reg::Rsp => Cpu { rsp: v, ..s },
    }
}

/// The address that a memory operand names.
pub open spec fn address(s: Cpu, m: MemRef) -> int {
    signed(reg(s, m.reg)) + m.offset
}

pub open spec fn load(s: Cpu, m: MemRef) -> u64 {
    s.mem[address(s, m)]
}

pub open spec fn store(s: Cpu, m: MemRef, v: u64) -> Cpu {
    Cpu { mem: s.mem.insert(address(s, m), v), ..s }
}

/// The value of a 64-bit operand.
pub open spec fn arg64_value(s: Cpu, a: Arg64) -> u64 {
    match a {
        Arg64::Reg(r) => reg(s, r),
        Arg64::Signed(i) => word(i as int),
        Arg64::Unsigned(u) => u,
        Arg64::Mem(m) => load(s, m),
    }
}

/// The number that 32 bits given without a sign stand for once they are
/// extended with their sign, as the processor extends an immediate.
pub open spec fn sign_extended(u: u32) -> int {
    if u < 0x8000_0000 {
        u as int
    } else {
        u as int - 0x1_0000_0000
    }
}

/// The value of a 32-bit operand; an immediate is extended with its sign.
pub open spec fn arg32_value(s: Cpu, a: Arg32) -> u64 {
    match a {
        Arg32::Reg(r) => reg(s, r),
        Arg32::Signed(i) => word(i as int),
        Arg32::Unsigned(u) => word(sign_extended(u)),
        Arg32::Mem(m) => load(s, m),
    }
}

/// The value of a source that is stored; an immediate is extended with its
/// sign.
pub open spec fn reg32_value(s: Cpu, a: Reg32) -> u64 {
    match a {
        Reg32::Reg(r) => reg(s, r),
        Reg32::Signed(i) => word(i as int),
        Reg32::Unsigned(u) => word(sign_extended(u)),
    }
}

/// The value that a binary instruction reads at its destination.
pub open spec fn destination(s: Cpu, a: BinArgs) -> u64 {
    match a {
        BinArgs::ToReg(r, _) => reg(s, r),
        BinArgs::ToMem(m, _) => load(s, m),
    }
}

/// The value of the source operand of a binary instruction.
pub open spec fn source(s: Cpu, a: BinArgs) -> u64 {
    match a {
        BinArgs::ToReg(_, src) => arg32_value(s, src),
        BinArgs::ToMem(_, src) => reg32_value(s, src),
    }
}

/// The state with `v` written to the destination of a binary instruction.
pub open spec fn write_back(s: Cpu, a: BinArgs, v: u64) -> Cpu {
    match a {
        BinArgs::ToReg(r, _) => set_reg(s, r, v),
        BinArgs::ToMem(m, _) => store(s, m, v),
    }
}

/// The kinds of binary instructions that compute.
pub ghost enum Alu {
    Add,
    Sub,
    IMul,
    And,
    Or,
    Xor,
    Shl,
    Sar,
}

/// The exact signed result of an arithmetic instruction.
pub open spec fn alu_exact(k: Alu, x: u64, y: u64) -> int {
    match k {
        Alu::Add => signed(x) + signed(y),
        Alu::Sub => signed(x) - signed(y),
        _ => signed(x) * signed(y),
    }
}

/// The left shift of a word, by less than 64 bits.
pub open spec fn shift_left(x: u64, n: u64) -> u64 {
    if n < 64 {
        x << n
    } else {
        0
    }
}

/// The arithmetic right shift of a word, by less than 64 bits: the signed
/// number divided by the power of two and rounded down.
pub open spec fn shift_right(x: u64, n: u64) -> u64 {
    if n < 64 {
        word(signed(x) / (pow2(n as nat) as int))
    } else {
        x
    }
}

pub open spec fn pow2(n: nat) -> nat
    decreases n,
{
    if n == 0 {
        1
    } else {
        2 * pow2((n - 1) as nat)
    }
}

/// The word that a computing instruction leaves.
pub open spec fn alu_result(k: Alu, x: u64, y: u64) -> u64 {
    match k {
        Alu::Add | Alu::Sub | Alu::IMul => word(alu_exact(k, x, y)),
        Alu::And => x & y,
        Alu::Or => x | y,
        Alu::Xor => x ^ y,
        Alu::Shl => shift_left(x, y),
        Alu::Sar => shift_right(x, y),
    }
}

/// The overflow flag that a computing instruction leaves: set where the
/// exact result of an arithmetic instruction does not fit in 64 bits.
pub open spec fn alu_overflow(k: Alu, x: u64, y: u64) -> bool {
    match k {
        Alu::Add | Alu::Sub | Alu::IMul => !fits_word(alu_exact(k, x, y)),
        _ => false,
    }
}

/// What a computing instruction does to the state.
pub open spec fn alu(k: Alu, s: Cpu, a: BinArgs) -> Cpu {
    let x = destination(s, a);
    let y = source(s, a);
    let r = alu_result(k, x, y);
    let t = write_back(s, a, r);
    Cpu { zero: r == 0, overflow: alu_overflow(k, x, y), ..t }
}

/// What one instruction does.
pub open spec fn step_op(op: Op, s: Cpu, w: World) -> Flow {
    match op {
        Op::Mov(MovArgs::ToReg(r, src)) => Flow::Next(set_reg(s, r, arg64_value(s, src))),
        Op::Mov(MovArgs::ToMem(m, src)) => Flow::Next(store(s, m, reg32_value(s, src))),
        Op::Add(a) => Flow::Next(alu(Alu::Add, s, a)),
        Op::Sub(a) => Flow::Next(alu(Alu::Sub, s, a)),
        Op::IMul(a) => Flow::Next(alu(Alu::IMul, s, a)),
        Op::And(a) => Flow::Next(alu(Alu::And, s, a)),
        Op::Or(a) => Flow::Next(alu(Alu::Or, s, a)),
        Op::Xor(a) => Flow::Next(alu(Alu::Xor, s, a)),
        Op::Shl(a) => Flow::Next(alu(Alu::Shl, s, a)),
        Op::Sar(a) => Flow::Next(alu(Alu::Sar, s, a)),
        Op::Cmp(a) => {
            let x = destination(s, a);
            let y = source(s, a);
            Flow::Next(Cpu { zero: x == y, overflow: alu_overflow(Alu::Sub, x, y), ..s })
        },
        Op::Je(l) => if s.zero {
            Flow::Jump(l, s)
        } else {
            Flow::Next(s)
        },
        Op::Jne(l) => if !s.zero {
            Flow::Jump(l, s)
        } else {
            Flow::Next(s)
        },
        Op::Jo(l) => if s.overflow {
            Flow::Jump(l, s)
        } else {
            Flow::Next(s)
        },
        Op::Jmp(l) => Flow::Jump(l, s),
        Op::Call(l) => Flow::Next(w(l, s)),
        Op::Ret => Flow::Return(s),
        Op::Label(_) => Flow::Next(s),
    }
}

/// The place of the first label `l` in a block, or its length.
pub open spec fn find_label(ops: Seq<Op>, l: Name) -> int
    decreases ops.len(),
{
    if ops.len() == 0 {
        0
    } else if ops[0] == Op::Label(l) {
        0
    } else {
        1 + find_label(ops.drop_first(), l)
    }
}

/// What a block does from its first instruction on.
pub open spec fn run(ops: Seq<Op>, s: Cpu, w: World) -> Flow
    decreases ops.len(),
{
    if ops.len() == 0 {
        Flow::Next(s)
    } else {
        let rest = ops.drop_first();
        match step_op(ops[0], s, w) {
            Flow::Next(t) => run(rest, t, w),
            Flow::Jump(l, t) => {
                let k = find_label(rest, l);
                if 0 <= k < rest.len() {
                    run(rest.skip(k + 1), t, w)
                } else {
                    Flow::Jump(l, t)
                }
            },
            other => other,
        }
    }
}

/// Whether a block holds no label.
pub open spec fn label_free(ops: Seq<Op>) -> bool {
    forall|i: int| 0 <= i < ops.len() ==> !(#[trigger] ops[i] is Label)
}

/// A block without labels holds no label to jump to.
pub proof fn lemma_no_label(ops: Seq<Op>, l: Name)
    requires
        label_free(ops),
    ensures
        find_label(ops, l) == ops.len(),
    decreases ops.len(),
{
    if ops.len() > 0 {
        assert(!(ops[0] is Label));
        assert forall|i: int| 0 <= i < ops.drop_first().len() implies !(
        #[trigger] ops.drop_first()[i] is Label) by {
            assert(ops.drop_first()[i] == ops[i + 1]);
        }
        lemma_no_label(ops.drop_first(), l);
    }
}

/// The first label `l` of a block followed by another is that of the
/// first block, where it holds one, and else that of the second.
pub proof fn lemma_find_label_concat(a: Seq<Op>, b: Seq<Op>, l: Name)
    ensures
        0 <= find_label(a, l) <= a.len(),
        find_label(a + b, l) == (if find_label(a, l) < a.len() {
            find_label(a, l)
        } else {
            a.len() + find_label(b, l)
        }),
    decreases a.len(),
{
    if a.len() == 0 {
        assert(a + b =~= b);
    } else {
        assert((a + b).drop_first() =~= a.drop_first() + b);
        assert((a + b)[0] == a[0]);
        lemma_find_label_concat(a.drop_first(), b, l);
    }
}

/// A block after another: where the first is left through its end, the
/// second runs.
pub proof fn lemma_run_concat(a: Seq<Op>, b: Seq<Op>, s: Cpu, w: World)
    requires
        run(a, s, w) is Next,
    ensures
        run(a + b, s, w) == run(b, run(a, s, w)->Next_0, w),
    decreases a.len(),
{
    if a.len() == 0 {
        assert(a + b =~= b);
    } else {
        let rest = a.drop_first();
        assert((a + b).drop_first() =~= rest + b);
        assert((a + b)[0] == a[0]);
        match step_op(a[0], s, w) {
            Flow::Next(t) => {
                lemma_run_concat(rest, b, t, w);
            },
            Flow::Jump(l, t) => {
                let k = find_label(rest, l);
                lemma_find_label_concat(rest, b, l);
                assert((rest + b).skip(k + 1) =~= rest.skip(k + 1) + b);
                lemma_run_concat(rest.skip(k + 1), b, t, w);
            },
            _ => {},
        }
    }
}

/// A block after another: where the first is left by a jump to a label
/// that the second does not hold, both are left by it.
pub proof fn lemma_run_concat_jump(a: Seq<Op>, b: Seq<Op>, s: Cpu, w: World)
    requires
        run(a, s, w) is Jump,
        find_label(b, run(a, s, w)->Jump_0) >= b.len(),
    ensures
        run(a + b, s, w) == run(a, s, w),
    decreases a.len(),
{
    if a.len() > 0 {
        let rest = a.drop_first();
        assert((a + b).drop_first() =~= rest + b);
        assert((a + b)[0] == a[0]);
        match step_op(a[0], s, w) {
            Flow::Next(t) => {
                lemma_run_concat_jump(rest, b, t, w);
            },
            Flow::Jump(l, t) => {
                let k = find_label(rest, l);
                lemma_find_label_concat(rest, b, l);
                if 0 <= k < rest.len() {
                    assert((rest + b).skip(k + 1) =~= rest.skip(k + 1) + b);
                    lemma_run_concat_jump(rest.skip(k + 1), b, t, w);
                }
            },
            _ => {},
        }
    }
}

/// A block of one instruction does what the instruction does, where that
/// is no jump.
pub proof fn lemma_run_one(op: Op, s: Cpu, w: World)
    requires
        !(step_op(op, s, w) is Jump),
    ensures
        run(seq![op], s, w) == step_op(op, s, w),
{
    assert(seq![op].drop_first() =~= Seq::<Op>::empty());
    assert(run(Seq::<Op>::empty(), s, w) == Flow::Next(s));
    match step_op(op, s, w) {
        Flow::Next(t) => {
            assert(run(Seq::<Op>::empty(), t, w) == Flow::Next(t));
        },
        _ => {},
    }
}

/// A block after another: where the first is left by a return, both
/// are.
pub proof fn lemma_run_concat_return(a: Seq<Op>, b: Seq<Op>, s: Cpu, w: World)
    requires
        run(a, s, w) is Return,
    ensures
        run(a + b, s, w) == run(a, s, w),
    decreases a.len(),
{
    if a.len() > 0 {
        let rest = a.drop_first();
        assert((a + b).drop_first() =~= rest + b);
        assert((a + b)[0] == a[0]);
        match step_op(a[0], s, w) {
            Flow::Next(t) => {
                lemma_run_concat_return(rest, b, t, w);
            },
            Flow::Jump(l, t) => {
                let k = find_label(rest, l);
                lemma_find_label_concat(rest, b, l);
                if 0 <= k < rest.len() {
                    assert((rest + b).skip(k + 1) =~= rest.skip(k + 1) + b);
                    lemma_run_concat_return(rest.skip(k + 1), b, t, w);
                }
            },
            _ => {},
        }
    }
}

/// A block after another: where the first is left by a jump to a label
/// that the second holds, the second goes on behind that label.
pub proof fn lemma_run_concat_resolve(a: Seq<Op>, b: Seq<Op>, s: Cpu, w: World)
    requires
        run(a, s, w) is Jump,
        find_label(b, run(a, s, w)->Jump_0) < b.len(),
    ensures
        run(a + b, s, w) == run(
            b.skip(find_label(b, run(a, s, w)->Jump_0) + 1),
            run(a, s, w)->Jump_1,
            w,
        ),
    decreases a.len(),
{
    if a.len() > 0 {
        let rest = a.drop_first();
        assert((a + b).drop_first() =~= rest + b);
        assert((a + b)[0] == a[0]);
        match step_op(a[0], s, w) {
            Flow::Next(t) => {
                lemma_run_concat_resolve(rest, b, t, w);
            },
            Flow::Jump(l, t) => {
                let k = find_label(rest, l);
                lemma_find_label_concat(rest, b, l);
                lemma_find_label_concat(b, Seq::empty(), l);
                if 0 <= k < rest.len() {
                    assert((rest + b).skip(k + 1) =~= rest.skip(k + 1) + b);
                    lemma_run_concat_resolve(rest.skip(k + 1), b, t, w);
                } else {
                    let j = find_label(b, l);
                    assert((rest + b).skip(rest.len() + j + 1) =~= b.skip(j + 1));
                }
            },
            _ => {},
        }
    }
}

} // verus!
