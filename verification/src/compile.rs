//! Code generation: sequential expressions to x86-64 instructions, with
//! tagged values, stack slots, dynamic type checks and overflow traps.

use crate::names::{bind, find_last, index_of, keys, lemma_keys_push, lookup, numbered};
use crate::names::{numbered_name, table_of, unbind};
use crate::syntax::{FunDecl, imm_terms, ImmExp, ImmTerm, Name, names_of, Prim, seq_decl_terms};
use crate::syntax::{seq_fun_term, SeqExp, SeqFunTerm, SeqProg, SeqProgTerm, SeqTerm};
use crate::x86::{Arg32, Arg64, BinArgs, Instr, instrs_to_string, MemRef, MovArgs, Op, ops_of};
use crate::x86::{ops_text, Reg, Reg32};
use vstd::prelude::*;

verus! {

/// The word that stands for `true`.
pub const SNAKE_TRU: u64 = 0xFFFF_FFFF_FFFF_FFFF;

/// The word that stands for `false`.
pub const SNAKE_FLS: u64 = 0x7FFF_FFFF_FFFF_FFFF;

/// The bit in which the two booleans differ.
pub const SIGN_BIT: u64 = 0x8000_0000_0000_0000;

/// The largest number a program can hold.
pub const MAX_INT: i64 = 4611686018427387903;

/// The smallest number a program can hold.
pub const MIN_INT: i64 = -4611686018427387904;

/// The largest frame, in bytes, that the generator lays out.
pub const MAX_FRAME: u32 = 0x2000_0000;

/// The word of a number: the number shifted left by one bit.
pub open spec fn tag_num(n: i64) -> i64 {
    n.wrapping_add(n)
}

pub fn tag_number(n: i64) -> (w: i64)
    ensures
        w == tag_num(n),
{
    n.wrapping_add(n)
}

/// What the generator knows of the function it is in: the size of its frame
/// in bytes and the number of its parameter slots.
#[derive(Clone, Copy, Debug, PartialEq, Eq, Structural)]
pub struct Frame {
    pub size: u32,
    pub params: usize,
}

/// The dynamic type checks.
#[derive(Clone, Copy, Debug, PartialEq, Eq, Structural)]
pub enum Check {
    Arith,
    Cmp,
    Logic,
    If,
}

/// The label of the trap a failed check jumps to.
pub open spec fn check_label(c: Check) -> Name {
    match c {
        Check::Arith => "arith_error"@,
        Check::Cmp => "cmp_error"@,
        Check::Logic => "logic_error"@,
        Check::If => "if_error"@,
    }
}

/// The tag bit on which a check fails: arithmetic and comparison reject
/// booleans (bit 1), logic and `if` reject numbers (bit 0).
pub open spec fn check_bit(c: Check) -> i32 {
    match c {
        Check::Arith | Check::Cmp => 1,
        Check::Logic | Check::If => 0,
    }
}

/// The check of the tag of `reg`: copy, mask, compare, jump to the trap.
pub open spec fn check_ops(c: Check, reg: Reg) -> Seq<Op> {
    seq![
        Op::Mov(MovArgs::ToReg(Reg::Rcx, Arg64::Reg(reg))),
        Op::And(BinArgs::ToReg(Reg::Rcx, Arg32::Signed(1))),
        Op::Cmp(BinArgs::ToReg(Reg::Rcx, Arg32::Signed(check_bit(c)))),
        Op::Je(check_label(c)),
    ]
}

/// The byte offset from `rsp` of the newest slot of `x`; 0 where it has none.
pub open spec fn slot_of(env: Seq<(Name, i32)>, x: Name) -> i32 {
    match lookup(env, x) {
        Some(off) => off,
        None => 0,
    }
}

/// An immediate as an operand of `mov`.
pub open spec fn imm_arg(i: ImmTerm, env: Seq<(Name, i32)>) -> Arg64 {
    match i {
        ImmTerm::Num(n) => Arg64::Signed(tag_num(n)),
        ImmTerm::Bool(b) => Arg64::Unsigned(
            if b {
                SNAKE_TRU
            } else {
                SNAKE_FLS
            },
        ),
        ImmTerm::Var(x) => Arg64::Mem(MemRef { reg: Reg::Rsp, offset: slot_of(env, x) }),
    }
}

/// Whether an immediate reads only names that have a slot.
pub open spec fn imm_bound(i: ImmTerm, bound: Seq<Name>) -> bool {
    i matches ImmTerm::Var(x) ==> index_of(bound, x) >= 0
}

pub open spec fn imms_bound(args: Seq<ImmTerm>, bound: Seq<Name>) -> bool {
    forall|k: int| 0 <= k < args.len() ==> imm_bound(#[trigger] args[k], bound)
}

pub open spec fn mov_reg(r: Reg, a: Arg64) -> Op {
    Op::Mov(MovArgs::ToReg(r, a))
}

/// The two operands, the right one in `rax` and the left one in `rdx`,
/// change places through `rcx`, which the checks have used already.
pub open spec fn swap_ops() -> Seq<Op> {
    seq![
        mov_reg(Reg::Rcx, Arg64::Reg(Reg::Rax)),
        mov_reg(Reg::Rax, Arg64::Reg(Reg::Rdx)),
        mov_reg(Reg::Rdx, Arg64::Reg(Reg::Rcx)),
    ]
}

/// Both operands loaded and checked, the left one first. Each is checked
/// while it stands in `rax`, so that a trap finds there the value that
/// failed the check: the left operand where it fails, else the right one.
/// After the checks the left operand stands in `rax`, the right one in
/// `rdx`.
pub open spec fn checked_operands(
    c: Check,
    a: ImmTerm,
    b: ImmTerm,
    env: Seq<(Name, i32)>,
) -> Seq<Op> {
    seq![mov_reg(Reg::Rax, imm_arg(a, env))] + check_ops(c, Reg::Rax) + seq![
        mov_reg(Reg::Rdx, Arg64::Reg(Reg::Rax)),
        mov_reg(Reg::Rax, imm_arg(b, env)),
    ] + check_ops(c, Reg::Rax) + swap_ops()
}

pub open spec fn overflow_label() -> Name {
    "overflow_error"@
}

/// `add rax, rdx` or `sub rax, rdx`, and the overflow trap.
pub open spec fn add_sub_ops(p: Prim, a: ImmTerm, b: ImmTerm, env: Seq<(Name, i32)>) -> Seq<Op> {
    let args = BinArgs::ToReg(Reg::Rax, Arg32::Reg(Reg::Rdx));
    checked_operands(Check::Arith, a, b, env) + seq![
        if p == Prim::Add {
            Op::Add(args)
        } else {
            Op::Sub(args)
        },
        Op::Jo(overflow_label()),
    ]
}

/// One operand untagged, then `imul`, and the overflow trap.
pub open spec fn mul_ops(a: ImmTerm, b: ImmTerm, env: Seq<(Name, i32)>) -> Seq<Op> {
    checked_operands(Check::Arith, a, b, env) + seq![
        Op::Sar(BinArgs::ToReg(Reg::Rdx, Arg32::Signed(1))),
        Op::IMul(BinArgs::ToReg(Reg::Rax, Arg32::Reg(Reg::Rdx))),
        Op::Jo(overflow_label()),
    ]
}

/// `add rax, 2` or `sub rax, 2`, and the overflow trap.
pub open spec fn add1_sub1_ops(p: Prim, a: ImmTerm, env: Seq<(Name, i32)>) -> Seq<Op> {
    let args = BinArgs::ToReg(Reg::Rax, Arg32::Signed(2));
    seq![mov_reg(Reg::Rax, imm_arg(a, env))] + check_ops(Check::Arith, Reg::Rax) + seq![
        if p == Prim::Add1 {
            Op::Add(args)
        } else {
            Op::Sub(args)
        },
        Op::Jo(overflow_label()),
    ]
}

/// The top bit flipped.
pub open spec fn not_ops(a: ImmTerm, env: Seq<(Name, i32)>) -> Seq<Op> {
    seq![mov_reg(Reg::Rax, imm_arg(a, env))] + check_ops(Check::Logic, Reg::Rax) + seq![
        mov_reg(Reg::Rdx, Arg64::Unsigned(SIGN_BIT)),
        Op::Xor(BinArgs::ToReg(Reg::Rax, Arg32::Reg(Reg::Rdx))),
    ]
}

/// Bitwise `and` or `or` of two booleans.
pub open spec fn and_or_ops(p: Prim, a: ImmTerm, b: ImmTerm, env: Seq<(Name, i32)>) -> Seq<Op> {
    let args = BinArgs::ToReg(Reg::Rax, Arg32::Reg(Reg::Rdx));
    checked_operands(Check::Logic, a, b, env) + seq![
        if p == Prim::And {
            Op::And(args)
        } else {
            Op::Or(args)
        },
    ]
}

/// The tag bit moved to the top bit: `true` for a number with `IsNum`, for a
/// boolean with `IsBool`.
pub open spec fn is_tag_ops(p: Prim, a: ImmTerm, env: Seq<(Name, i32)>) -> Seq<Op> {
    let args = BinArgs::ToReg(Reg::Rax, Arg32::Reg(Reg::Rdx));
    seq![
        mov_reg(Reg::Rax, imm_arg(a, env)),
        mov_reg(Reg::Rdx, Arg64::Unsigned(SNAKE_FLS)),
        if p == Prim::IsNum {
            Op::Xor(args)
        } else {
            Op::And(args)
        },
        Op::Shl(BinArgs::ToReg(Reg::Rax, Arg32::Signed(63))),
        Op::Or(args),
    ]
}

/// `true` where `rax` is negative.
pub open spec fn is_neg_ops() -> Seq<Op> {
    seq![
        mov_reg(Reg::Rdx, Arg64::Unsigned(SNAKE_FLS)),
        Op::Or(BinArgs::ToReg(Reg::Rax, Arg32::Reg(Reg::Rdx))),
    ]
}

/// `true` where `rax` is not negative.
pub open spec fn is_non_neg_ops() -> Seq<Op> {
    seq![
        mov_reg(Reg::Rdx, Arg64::Unsigned(SIGN_BIT)),
        Op::Xor(BinArgs::ToReg(Reg::Rax, Arg32::Reg(Reg::Rdx))),
        mov_reg(Reg::Rdx, Arg64::Unsigned(SNAKE_FLS)),
        Op::Or(BinArgs::ToReg(Reg::Rax, Arg32::Reg(Reg::Rdx))),
    ]
}

/// Both operands checked and untagged, and their difference in `rax`: left
/// minus right, or right minus left where `reverse`.
pub open spec fn difference_ops(
    a: ImmTerm,
    b: ImmTerm,
    env: Seq<(Name, i32)>,
    reverse: bool,
) -> Seq<Op> {
    checked_operands(Check::Cmp, a, b, env) + seq![
        Op::Sar(BinArgs::ToReg(Reg::Rax, Arg32::Signed(1))),
        Op::Sar(BinArgs::ToReg(Reg::Rdx, Arg32::Signed(1))),
    ] + (if reverse {
        seq![
            Op::Sub(BinArgs::ToReg(Reg::Rdx, Arg32::Reg(Reg::Rax))),
            mov_reg(Reg::Rax, Arg64::Reg(Reg::Rdx)),
        ]
    } else {
        seq![Op::Sub(BinArgs::ToReg(Reg::Rax, Arg32::Reg(Reg::Rdx)))]
    })
}

/// An ordering comparison: the sign of a difference turned into a boolean.
pub open spec fn order_ops(p: Prim, a: ImmTerm, b: ImmTerm, env: Seq<(Name, i32)>) -> Seq<Op> {
    difference_ops(a, b, env, p == Prim::Gt || p == Prim::Le) + (if p == Prim::Lt || p
        == Prim::Gt {
        is_neg_ops()
    } else {
        is_non_neg_ops()
    })
}

/// Equality of the two words, with the labels of number `n`.
pub open spec fn equality_ops(
    p: Prim,
    a: ImmTerm,
    b: ImmTerm,
    env: Seq<(Name, i32)>,
    n: nat,
) -> Seq<Op> {
    let yes = numbered("true_"@, n);
    let done = numbered("cmp_done_"@, n);
    seq![
        mov_reg(Reg::Rax, imm_arg(a, env)),
        mov_reg(Reg::Rdx, imm_arg(b, env)),
        Op::Cmp(BinArgs::ToReg(Reg::Rax, Arg32::Reg(Reg::Rdx))),
        if p == Prim::Eq {
            Op::Je(yes)
        } else {
            Op::Jne(yes)
        },
        mov_reg(Reg::Rax, Arg64::Unsigned(SNAKE_FLS)),
        Op::Jmp(done),
        Op::Label(yes),
        mov_reg(Reg::Rax, Arg64::Unsigned(SNAKE_TRU)),
        Op::Label(done),
    ]
}

/// The call of the runtime's printer around a moved stack pointer.
pub open spec fn print_ops(a: ImmTerm, env: Seq<(Name, i32)>, frame: Frame) -> Seq<Op> {
    seq![
        mov_reg(Reg::Rdi, imm_arg(a, env)),
        Op::Sub(BinArgs::ToReg(Reg::Rsp, Arg32::Unsigned(frame.size))),
        Op::Call("print_snake_val"@),
        Op::Add(BinArgs::ToReg(Reg::Rsp, Arg32::Unsigned(frame.size))),
    ]
}

/// The number of labels a primitive takes.
pub open spec fn prim_labels(p: Prim) -> nat {
    if p == Prim::Eq || p == Prim::Neq {
        1
    } else {
        0
    }
}

/// The instructions of a primitive on immediates; the result is in `rax`.
pub open spec fn prim_ops(
    p: Prim,
    args: Seq<ImmTerm>,
    env: Seq<(Name, i32)>,
    counter: nat,
    frame: Frame,
) -> Seq<Op> {
    match p {
        Prim::Add1 | Prim::Sub1 => add1_sub1_ops(p, args[0], env),
        Prim::Not => not_ops(args[0], env),
        Prim::Print => print_ops(args[0], env, frame),
        Prim::IsBool | Prim::IsNum => is_tag_ops(p, args[0], env),
        Prim::Add | Prim::Sub => add_sub_ops(p, args[0], args[1], env),
        Prim::Mul => mul_ops(args[0], args[1], env),
        Prim::And | Prim::Or => and_or_ops(p, args[0], args[1], env),
        Prim::Lt | Prim::Gt | Prim::Le | Prim::Ge => order_ops(p, args[0], args[1], env),
        Prim::Eq | Prim::Neq => equality_ops(p, args[0], args[1], env, counter + 1),
    }
}

/// A jump target made of text.
pub fn label(s: &str) -> (l: String)
    ensures
        l@ == s@,
{
    String::from_str(s)
}

pub fn check_target(c: Check) -> (l: String)
    ensures
        l@ == check_label(c),
{
    match c {
        Check::Arith => label("arith_error"),
        Check::Cmp => label("cmp_error"),
        Check::Logic => label("logic_error"),
        Check::If => label("if_error"),
    }
}

/// Adds the instructions of `more` to `out`.
pub fn append_instrs(out: &mut Vec<Instr>, more: Vec<Instr>)
    ensures
        ops_of(final(out)@) == ops_of(old(out)@) + ops_of(more@),
{
    let ghost added = more@;
    let mut more = more;
    out.append(&mut more);
    assert(ops_of(out@) =~= ops_of(old(out)@) + ops_of(added));
}

/// Adds one instruction to `out`.
pub fn emit(out: &mut Vec<Instr>, i: Instr)
    ensures
        ops_of(final(out)@) == ops_of(old(out)@).push(i@),
{
    out.push(i);
    assert(ops_of(out@) =~= ops_of(old(out)@).push(i@));
}

/// The check of the tag of `reg`.
pub fn type_check(c: Check, reg: Reg) -> (r: Vec<Instr>)
    ensures
        ops_of(r@) == check_ops(c, reg),
{
    let bit: i32 = match c {
        Check::Arith | Check::Cmp => 1,
        Check::Logic | Check::If => 0,
    };
    let r = vec![
        Instr::Mov(MovArgs::ToReg(Reg::Rcx, Arg64::Reg(reg))),
        Instr::And(BinArgs::ToReg(Reg::Rcx, Arg32::Signed(1))),
        Instr::Cmp(BinArgs::ToReg(Reg::Rcx, Arg32::Signed(bit))),
        Instr::Je(check_target(c)),
    ];
    assert(ops_of(r@) =~= check_ops(c, reg));
    r
}

pub fn arith_check(reg: Reg) -> (r: Vec<Instr>)
    ensures
        ops_of(r@) == check_ops(Check::Arith, reg),
{
    type_check(Check::Arith, reg)
}

pub fn cmp_check(reg: Reg) -> (r: Vec<Instr>)
    ensures
        ops_of(r@) == check_ops(Check::Cmp, reg),
{
    type_check(Check::Cmp, reg)
}

pub fn logic_check(reg: Reg) -> (r: Vec<Instr>)
    ensures
        ops_of(r@) == check_ops(Check::Logic, reg),
{
    type_check(Check::Logic, reg)
}

pub fn if_check(reg: Reg) -> (r: Vec<Instr>)
    ensures
        ops_of(r@) == check_ops(Check::If, reg),
{
    type_check(Check::If, reg)
}

/// An immediate as an operand of `mov`.
pub fn imm_to_arg64(imm: &ImmExp, stack: &Vec<(String, i32)>) -> (a: Arg64)
    requires
        imm_bound(imm@, keys(table_of(stack@))),
    ensures
        a == imm_arg(imm@, table_of(stack@)),
{
    match imm {
        ImmExp::Num(i) => Arg64::Signed(tag_number(*i)),
        ImmExp::Var(s) => {
            match find_last(stack, s) {
                Some(k) => Arg64::Mem(MemRef { reg: Reg::Rsp, offset: stack[k].1 }),
                None => Arg64::Mem(MemRef { reg: Reg::Rsp, offset: 0 }),
            }
        },
        ImmExp::Bool(b) => {
            if *b {
                Arg64::Unsigned(SNAKE_TRU)
            } else {
                Arg64::Unsigned(SNAKE_FLS)
            }
        },
    }
}

/// The instruction that loads an immediate into `rax`.
pub fn imm_to_rax(imm: &ImmExp, stack: &Vec<(String, i32)>) -> (r: Vec<Instr>)
    requires
        imm_bound(imm@, keys(table_of(stack@))),
    ensures
        ops_of(r@) == seq![mov_reg(Reg::Rax, imm_arg(imm@, table_of(stack@)))],
{
    let r = vec![Instr::Mov(MovArgs::ToReg(Reg::Rax, imm_to_arg64(imm, stack)))];
    assert(ops_of(r@) =~= seq![mov_reg(Reg::Rax, imm_arg(imm@, table_of(stack@)))]);
    r
}

/// Both operands loaded and checked, the left one first; they end in
/// `rax` and `rdx`.
pub fn load_checked(c: Check, a: &ImmExp, b: &ImmExp, stack: &Vec<(String, i32)>) -> (r: Vec<
    Instr,
>)
    requires
        imm_bound(a@, keys(table_of(stack@))),
        imm_bound(b@, keys(table_of(stack@))),
    ensures
        ops_of(r@) == checked_operands(c, a@, b@, table_of(stack@)),
{
    let mut r = imm_to_rax(a, stack);
    append_instrs(&mut r, type_check(c, Reg::Rax));
    emit(&mut r, Instr::Mov(MovArgs::ToReg(Reg::Rdx, Arg64::Reg(Reg::Rax))));
    emit(&mut r, Instr::Mov(MovArgs::ToReg(Reg::Rax, imm_to_arg64(b, stack))));
    append_instrs(&mut r, type_check(c, Reg::Rax));
    emit(&mut r, Instr::Mov(MovArgs::ToReg(Reg::Rcx, Arg64::Reg(Reg::Rax))));
    emit(&mut r, Instr::Mov(MovArgs::ToReg(Reg::Rax, Arg64::Reg(Reg::Rdx))));
    emit(&mut r, Instr::Mov(MovArgs::ToReg(Reg::Rdx, Arg64::Reg(Reg::Rcx))));
    assert(ops_of(r@) =~= checked_operands(c, a@, b@, table_of(stack@)));
    r
}

/// Addition or subtraction of two numbers.
pub fn compile_add_sub(p: Prim, a: &ImmExp, b: &ImmExp, stack: &Vec<(String, i32)>) -> (r: Vec<
    Instr,
>)
    requires
        p == Prim::Add || p == Prim::Sub,
        imm_bound(a@, keys(table_of(stack@))),
        imm_bound(b@, keys(table_of(stack@))),
    ensures
        ops_of(r@) == add_sub_ops(p, a@, b@, table_of(stack@)),
{
    let mut r = load_checked(Check::Arith, a, b, stack);
    let args = BinArgs::ToReg(Reg::Rax, Arg32::Reg(Reg::Rdx));
    match p {
        Prim::Add => emit(&mut r, Instr::Add(args)),
        _ => emit(&mut r, Instr::Sub(args)),
    }
    emit(&mut r, Instr::Jo(label("overflow_error")));
    assert(ops_of(r@) =~= add_sub_ops(p, a@, b@, table_of(stack@)));
    r
}

/// Multiplication of two numbers.
pub fn compile_mul(a: &ImmExp, b: &ImmExp, stack: &Vec<(String, i32)>) -> (r: Vec<Instr>)
    requires
        imm_bound(a@, keys(table_of(stack@))),
        imm_bound(b@, keys(table_of(stack@))),
    ensures
        ops_of(r@) == mul_ops(a@, b@, table_of(stack@)),
{
    let mut r = load_checked(Check::Arith, a, b, stack);
    emit(&mut r, Instr::Sar(BinArgs::ToReg(Reg::Rdx, Arg32::Signed(1))));
    emit(&mut r, Instr::IMul(BinArgs::ToReg(Reg::Rax, Arg32::Reg(Reg::Rdx))));
    emit(&mut r, Instr::Jo(label("overflow_error")));
    assert(ops_of(r@) =~= mul_ops(a@, b@, table_of(stack@)));
    r
}

/// A number plus or minus one.
pub fn compile_add1_sub1(p: Prim, a: &ImmExp, stack: &Vec<(String, i32)>) -> (r: Vec<Instr>)
    requires
        p == Prim::Add1 || p == Prim::Sub1,
        imm_bound(a@, keys(table_of(stack@))),
    ensures
        ops_of(r@) == add1_sub1_ops(p, a@, table_of(stack@)),
{
    let mut r = imm_to_rax(a, stack);
    append_instrs(&mut r, arith_check(Reg::Rax));
    let args = BinArgs::ToReg(Reg::Rax, Arg32::Signed(2));
    match p {
        Prim::Add1 => emit(&mut r, Instr::Add(args)),
        _ => emit(&mut r, Instr::Sub(args)),
    }
    emit(&mut r, Instr::Jo(label("overflow_error")));
    assert(ops_of(r@) =~= add1_sub1_ops(p, a@, table_of(stack@)));
    r
}

/// The negation of a boolean.
pub fn compile_not(a: &ImmExp, stack: &Vec<(String, i32)>) -> (r: Vec<Instr>)
    requires
        imm_bound(a@, keys(table_of(stack@))),
    ensures
        ops_of(r@) == not_ops(a@, table_of(stack@)),
{
    let mut r = imm_to_rax(a, stack);
    append_instrs(&mut r, logic_check(Reg::Rax));
    emit(&mut r, Instr::Mov(MovArgs::ToReg(Reg::Rdx, Arg64::Unsigned(SIGN_BIT))));
    emit(&mut r, Instr::Xor(BinArgs::ToReg(Reg::Rax, Arg32::Reg(Reg::Rdx))));
    assert(ops_of(r@) =~= not_ops(a@, table_of(stack@)));
    r
}

/// Conjunction or disjunction of two booleans.
pub fn compile_and_or(p: Prim, a: &ImmExp, b: &ImmExp, stack: &Vec<(String, i32)>) -> (r: Vec<
    Instr,
>)
    requires
        p == Prim::And || p == Prim::Or,
        imm_bound(a@, keys(table_of(stack@))),
        imm_bound(b@, keys(table_of(stack@))),
    ensures
        ops_of(r@) == and_or_ops(p, a@, b@, table_of(stack@)),
{
    let mut r = load_checked(Check::Logic, a, b, stack);
    let args = BinArgs::ToReg(Reg::Rax, Arg32::Reg(Reg::Rdx));
    match p {
        Prim::And => emit(&mut r, Instr::And(args)),
        _ => emit(&mut r, Instr::Or(args)),
    }
    assert(ops_of(r@) =~= and_or_ops(p, a@, b@, table_of(stack@)));
    r
}

/// The test of the tag: `isnum` or `isbool`.
pub fn compile_is_tag(p: Prim, a: &ImmExp, stack: &Vec<(String, i32)>) -> (r: Vec<Instr>)
    requires
        p == Prim::IsNum || p == Prim::IsBool,
        imm_bound(a@, keys(table_of(stack@))),
    ensures
        ops_of(r@) == is_tag_ops(p, a@, table_of(stack@)),
{
    let mut r = imm_to_rax(a, stack);
    let args = BinArgs::ToReg(Reg::Rax, Arg32::Reg(Reg::Rdx));
    emit(&mut r, Instr::Mov(MovArgs::ToReg(Reg::Rdx, Arg64::Unsigned(SNAKE_FLS))));
    match p {
        Prim::IsNum => emit(&mut r, Instr::Xor(args)),
        _ => emit(&mut r, Instr::And(args)),
    }
    emit(&mut r, Instr::Shl(BinArgs::ToReg(Reg::Rax, Arg32::Signed(63))));
    emit(&mut r, Instr::Or(args));
    assert(ops_of(r@) =~= is_tag_ops(p, a@, table_of(stack@)));
    r
}

/// Turns the sign of `rax` into a boolean: `true` where it is negative.
pub fn is_neg() -> (r: Vec<Instr>)
    ensures
        ops_of(r@) == is_neg_ops(),
{
    let r = vec![
        Instr::Mov(MovArgs::ToReg(Reg::Rdx, Arg64::Unsigned(SNAKE_FLS))),
        Instr::Or(BinArgs::ToReg(Reg::Rax, Arg32::Reg(Reg::Rdx))),
    ];
    assert(ops_of(r@) =~= is_neg_ops());
    r
}

/// Turns the sign of `rax` into a boolean: `true` where it is not negative.
pub fn is_non_neg() -> (r: Vec<Instr>)
    ensures
        ops_of(r@) == is_non_neg_ops(),
{
    let r = vec![
        Instr::Mov(MovArgs::ToReg(Reg::Rdx, Arg64::Unsigned(SIGN_BIT))),
        Instr::Xor(BinArgs::ToReg(Reg::Rax, Arg32::Reg(Reg::Rdx))),
        Instr::Mov(MovArgs::ToReg(Reg::Rdx, Arg64::Unsigned(SNAKE_FLS))),
        Instr::Or(BinArgs::ToReg(Reg::Rax, Arg32::Reg(Reg::Rdx))),
    ];
    assert(ops_of(r@) =~= is_non_neg_ops());
    r
}

/// The difference of two checked, untagged numbers in `rax`.
pub fn sub_for_cmp(a: &ImmExp, b: &ImmExp, stack: &Vec<(String, i32)>, reverse: bool) -> (r: Vec<
    Instr,
>)
    requires
        imm_bound(a@, keys(table_of(stack@))),
        imm_bound(b@, keys(table_of(stack@))),
    ensures
        ops_of(r@) == difference_ops(a@, b@, table_of(stack@), reverse),
{
    let mut r = load_checked(Check::Cmp, a, b, stack);
    emit(&mut r, Instr::Sar(BinArgs::ToReg(Reg::Rax, Arg32::Signed(1))));
    emit(&mut r, Instr::Sar(BinArgs::ToReg(Reg::Rdx, Arg32::Signed(1))));
    if reverse {
        emit(&mut r, Instr::Sub(BinArgs::ToReg(Reg::Rdx, Arg32::Reg(Reg::Rax))));
        emit(&mut r, Instr::Mov(MovArgs::ToReg(Reg::Rax, Arg64::Reg(Reg::Rdx))));
    } else {
        emit(&mut r, Instr::Sub(BinArgs::ToReg(Reg::Rax, Arg32::Reg(Reg::Rdx))));
    }
    assert(ops_of(r@) =~= difference_ops(a@, b@, table_of(stack@), reverse));
    r
}

/// An ordering comparison of two numbers.
pub fn compile_order(p: Prim, a: &ImmExp, b: &ImmExp, stack: &Vec<(String, i32)>) -> (r: Vec<
    Instr,
>)
    requires
        p == Prim::Lt || p == Prim::Gt || p == Prim::Le || p == Prim::Ge,
        imm_bound(a@, keys(table_of(stack@))),
        imm_bound(b@, keys(table_of(stack@))),
    ensures
        ops_of(r@) == order_ops(p, a@, b@, table_of(stack@)),
{
    let reverse = match p {
        Prim::Gt | Prim::Le => true,
        _ => false,
    };
    let mut r = sub_for_cmp(a, b, stack, reverse);
    match p {
        Prim::Lt | Prim::Gt => append_instrs(&mut r, is_neg()),
        _ => append_instrs(&mut r, is_non_neg()),
    }
    r
}

/// Equality or inequality of two values.
pub fn compile_equality(
    p: Prim,
    a: &ImmExp,
    b: &ImmExp,
    stack: &Vec<(String, i32)>,
    counter: &mut u32,
) -> (r: Vec<Instr>)
    requires
        p == Prim::Eq || p == Prim::Neq,
        imm_bound(a@, keys(table_of(stack@))),
        imm_bound(b@, keys(table_of(stack@))),
        *old(counter) < u32::MAX,
    ensures
        ops_of(r@) == equality_ops(p, a@, b@, table_of(stack@), (*old(counter) + 1) as nat),
        *final(counter) == *old(counter) + 1,
{
    *counter = *counter + 1;
    let mut r = imm_to_rax(a, stack);
    emit(&mut r, Instr::Mov(MovArgs::ToReg(Reg::Rdx, imm_to_arg64(b, stack))));
    emit(&mut r, Instr::Cmp(BinArgs::ToReg(Reg::Rax, Arg32::Reg(Reg::Rdx))));
    match p {
        Prim::Eq => emit(&mut r, Instr::Je(numbered_name("true_", *counter))),
        _ => emit(&mut r, Instr::Jne(numbered_name("true_", *counter))),
    }
    emit(&mut r, Instr::Mov(MovArgs::ToReg(Reg::Rax, Arg64::Unsigned(SNAKE_FLS))));
    emit(&mut r, Instr::Jmp(numbered_name("cmp_done_", *counter)));
    emit(&mut r, Instr::Label(numbered_name("true_", *counter)));
    emit(&mut r, Instr::Mov(MovArgs::ToReg(Reg::Rax, Arg64::Unsigned(SNAKE_TRU))));
    emit(&mut r, Instr::Label(numbered_name("cmp_done_", *counter)));
    assert(ops_of(r@) =~= equality_ops(p, a@, b@, table_of(stack@), (*old(counter) + 1) as nat));
    r
}

/// The call of the runtime's printer.
pub fn compile_print(a: &ImmExp, stack: &Vec<(String, i32)>, frame: Frame) -> (r: Vec<Instr>)
    requires
        imm_bound(a@, keys(table_of(stack@))),
    ensures
        ops_of(r@) == print_ops(a@, table_of(stack@), frame),
{
    let r = vec![
        Instr::Mov(MovArgs::ToReg(Reg::Rdi, imm_to_arg64(a, stack))),
        Instr::Sub(BinArgs::ToReg(Reg::Rsp, Arg32::Unsigned(frame.size))),
        Instr::Call(label("print_snake_val")),
        Instr::Add(BinArgs::ToReg(Reg::Rsp, Arg32::Unsigned(frame.size))),
    ];
    assert(ops_of(r@) =~= print_ops(a@, table_of(stack@), frame));
    r
}

/// The instructions of a primitive on immediates.
pub fn compile_prim(
    p: Prim,
    args: &Vec<ImmExp>,
    stack: &Vec<(String, i32)>,
    counter: &mut u32,
    frame: Frame,
) -> (r: Vec<Instr>)
    requires
        args.len() == p.arity(),
        imms_bound(imm_terms(args@), keys(table_of(stack@))),
        *old(counter) + prim_labels(p) <= u32::MAX,
    ensures
        ops_of(r@) == prim_ops(
            p,
            imm_terms(args@),
            table_of(stack@),
            *old(counter) as nat,
            frame,
        ),
        *final(counter) == *old(counter) + prim_labels(p),
{
    let ghost ts = imm_terms(args@);
    assert(ts[0] == args@[0]@);
    assert(imm_bound(ts[0], keys(table_of(stack@))));
    if p.operand_count() == 2 {
        assert(ts[1] == args@[1]@);
        assert(imm_bound(ts[1], keys(table_of(stack@))));
    }
    match p {
        Prim::Add1 | Prim::Sub1 => compile_add1_sub1(p, &args[0], stack),
        Prim::Not => compile_not(&args[0], stack),
        Prim::Print => compile_print(&args[0], stack, frame),
        Prim::IsBool | Prim::IsNum => compile_is_tag(p, &args[0], stack),
        Prim::Add | Prim::Sub => compile_add_sub(p, &args[0], &args[1], stack),
        Prim::Mul => compile_mul(&args[0], &args[1], stack),
        Prim::And | Prim::Or => compile_and_or(p, &args[0], &args[1], stack),
        Prim::Lt | Prim::Gt | Prim::Le | Prim::Ge => compile_order(p, &args[0], &args[1], stack),
        Prim::Eq | Prim::Neq => compile_equality(p, &args[0], &args[1], stack, counter),
    }
}

/// The label under which a function's code stands.
pub open spec fn fun_label(f: Name) -> Name {
    "fun_"@ + f
}

pub fn function_label(f: &String) -> (l: String)
    ensures
        l@ == fun_label(f@),
{
    let mut l = String::from_str("fun_");
    l.append(f.as_str());
    l
}

/// The store of `rax` into the slot at `offset` from `rsp`.
pub open spec fn store_rax(offset: int) -> Op {
    Op::Mov(MovArgs::ToMem(MemRef { reg: Reg::Rsp, offset: offset as i32 }, Reg32::Reg(Reg::Rax)))
}

/// The load of the slot at `offset` from `rsp` into `rax`.
pub open spec fn load_rax(offset: int) -> Op {
    mov_reg(Reg::Rax, Arg64::Mem(MemRef { reg: Reg::Rsp, offset: offset as i32 }))
}

/// Each argument written to the slots that start at `base` and go up.
pub open spec fn store_args(args: Seq<ImmTerm>, env: Seq<(Name, i32)>, base: int) -> Seq<Op>
    decreases args.len(),
{
    if args.len() == 0 {
        Seq::empty()
    } else {
        store_args(args.drop_last(), env, base) + seq![
            mov_reg(Reg::Rax, imm_arg(args.last(), env)),
            store_rax(base + 8 * (args.len() - 1)),
        ]
    }
}

/// `n` slots copied from those that start at `from` to those that start at
/// `to`.
pub open spec fn move_args(n: nat, from: int, to: int) -> Seq<Op>
    decreases n,
{
    if n == 0 {
        Seq::empty()
    } else {
        move_args((n - 1) as nat, from, to) + seq![
            load_rax(from + 8 * (n - 1)),
            store_rax(to + 8 * (n - 1)),
        ]
    }
}

/// The bytes by which the stack pointer is moved around a call of a
/// function: the frame and one word more, so that the callee, like the main
/// expression, is entered with the stack pointer at a multiple of 16.
pub open spec fn call_gap(frame: Frame) -> u32 {
    (frame.size + 8) as u32
}

/// A call that returns: the arguments are written below the frame, where the
/// callee finds the first at `[rsp + 8]`, and the stack pointer is moved
/// around the call.
pub open spec fn call_ops(f: Name, args: Seq<ImmTerm>, env: Seq<(Name, i32)>, frame: Frame) -> Seq<
    Op,
> {
    store_args(args, env, -(call_gap(frame) as int)) + seq![
        Op::Sub(BinArgs::ToReg(Reg::Rsp, Arg32::Unsigned(call_gap(frame)))),
        Op::Call(fun_label(f)),
        Op::Add(BinArgs::ToReg(Reg::Rsp, Arg32::Unsigned(call_gap(frame)))),
    ]
}

/// A call in place of a return: the arguments are gathered in free slots,
/// copied over the caller's own parameter slots, and the callee is jumped to.
pub open spec fn tail_call_ops(f: Name, args: Seq<ImmTerm>, env: Seq<(Name, i32)>, depth: nat) -> Seq<
    Op,
> {
    let base = -8 * (depth + args.len());
    store_args(args, env, base) + move_args(args.len(), base, 8) + seq![Op::Jmp(fun_label(f))]
}

/// The number of local slots an expression needs beyond those in use.
pub open spec fn slots(t: SeqTerm) -> nat
    decreases t,
{
    match t {
        SeqTerm::Let(_, b, body) => {
            if slots(*b) >= 1 + slots(*body) {
                slots(*b)
            } else {
                1 + slots(*body)
            }
        },
        SeqTerm::If(_, a, b) => {
            if slots(*a) >= slots(*b) {
                slots(*a)
            } else {
                slots(*b)
            }
        },
        SeqTerm::ExternalCall(_, args, _) => args.len(),
        SeqTerm::InternalTailCall(_, args) => args.len(),
        _ => 0,
    }
}

/// The frame of a function that needs `n` local slots: the slots and the
/// return address, rounded up to an even number of words.
pub open spec fn frame_bytes(n: nat) -> nat {
    8 * (n + 1 + (n + 1) % 2)
}

/// The number of labels an expression takes.
pub open spec fn labels(t: SeqTerm) -> nat
    decreases t,
{
    match t {
        SeqTerm::Prim(p, _) => prim_labels(p),
        SeqTerm::Let(_, b, body) => labels(*b) + labels(*body),
        SeqTerm::If(_, a, b) => 1 + labels(*a) + labels(*b),
        _ => 0,
    }
}

/// What the generator asks of an expression: every name it reads is bound,
/// every primitive has its operands, and no group of local functions is
/// left.
pub open spec fn compilable(t: SeqTerm, bound: Seq<Name>) -> bool
    decreases t,
{
    match t {
        SeqTerm::Imm(i) => imm_bound(i, bound),
        SeqTerm::Prim(p, args) => args.len() == p.arity() && imms_bound(args, bound),
        SeqTerm::Let(x, b, body) => compilable(*b, bound) && compilable(*body, bound.push(x)),
        SeqTerm::If(c, a, b) => imm_bound(c, bound) && compilable(*a, bound) && compilable(
            *b,
            bound,
        ),
        SeqTerm::FunDefs(_, _) => false,
        SeqTerm::InternalTailCall(_, args) => imms_bound(args, bound),
        SeqTerm::ExternalCall(_, args, _) => imms_bound(args, bound),
    }
}

/// The instructions of an expression; its value ends in `rax`. `env` gives
/// each name in scope its slot, `depth` local slots are in use, and the
/// labels are numbered from `counter + 1`. A tail call, of a top-level
/// function or of a function of the same group, writes the new arguments
/// into the parameter slots and jumps; where the caller has fewer parameter
/// slots than the call has arguments, it is made as a call.
pub open spec fn lower(
    t: SeqTerm,
    env: Seq<(Name, i32)>,
    depth: nat,
    counter: nat,
    frame: Frame,
) -> Seq<Op>
    decreases t,
{
    match t {
        SeqTerm::Imm(i) => seq![mov_reg(Reg::Rax, imm_arg(i, env))],
        SeqTerm::Prim(p, args) => prim_ops(p, args, env, counter, frame),
        SeqTerm::Let(x, b, body) => {
            let offset = -8 * (depth + 1);
            lower(*b, env, depth, counter, frame) + seq![store_rax(offset)] + lower(
                *body,
                env.push((x, offset as i32)),
                depth + 1,
                counter + labels(*b),
                frame,
            )
        },
        SeqTerm::If(c, a, b) => {
            let n = counter + 1;
            seq![mov_reg(Reg::Rax, imm_arg(c, env))] + check_ops(Check::If, Reg::Rax) + seq![
                mov_reg(Reg::Rdx, Arg64::Unsigned(SNAKE_FLS)),
                Op::Cmp(BinArgs::ToReg(Reg::Rax, Arg32::Reg(Reg::Rdx))),
                Op::Je(numbered("else_"@, n)),
            ] + lower(*a, env, depth, n, frame) + seq![
                Op::Jmp(numbered("done_"@, n)),
                Op::Label(numbered("else_"@, n)),
            ] + lower(*b, env, depth, n + labels(*a), frame) + seq![
                Op::Label(numbered("done_"@, n)),
            ]
        },
        SeqTerm::ExternalCall(f, args, is_tail) => {
            if is_tail && args.len() <= frame.params {
                tail_call_ops(f, args, env, depth)
            } else {
                call_ops(f, args, env, frame)
            }
        },
        SeqTerm::InternalTailCall(f, args) => {
            if args.len() <= frame.params {
                tail_call_ops(f, args, env, depth)
            } else {
                call_ops(f, args, env, frame)
            }
        },
        SeqTerm::FunDefs(_, _) => Seq::empty(),
    }
}

/// Each argument written to the slots that start at `base`.
pub fn compile_store_args(args: &Vec<ImmExp>, stack: &Vec<(String, i32)>, base: i32) -> (r: Vec<
    Instr,
>)
    requires
        imms_bound(imm_terms(args@), keys(table_of(stack@))),
        -(MAX_FRAME as int) - 8 <= base,
        base + 8 * args.len() <= MAX_FRAME,
    ensures
        ops_of(r@) == store_args(imm_terms(args@), table_of(stack@), base as int),
{
    let mut r: Vec<Instr> = Vec::new();
    let ghost ts = imm_terms(args@);
    let ghost env = table_of(stack@);
    let mut k: usize = 0;
    assert(ops_of(r@) =~= Seq::<Op>::empty());
    assert(ts.take(0).len() == 0);
    while k < args.len()
        invariant
            k <= args.len(),
            ts == imm_terms(args@),
            env == table_of(stack@),
            imms_bound(ts, keys(env)),
            -(MAX_FRAME as int) - 8 <= base,
            base + 8 * args.len() <= MAX_FRAME,
            ops_of(r@) == store_args(ts.take(k as int), env, base as int),
        decreases args.len() - k,
    {
        assert(ts[k as int] == args@[k as int]@);
        let offset: i32 = base + 8 * (k as i32);
        emit(&mut r, Instr::Mov(MovArgs::ToReg(Reg::Rax, imm_to_arg64(&args[k], stack))));
        emit(
            &mut r,
            Instr::Mov(MovArgs::ToMem(MemRef { reg: Reg::Rsp, offset }, Reg32::Reg(Reg::Rax))),
        );
        proof {
            assert(ts.take(k + 1).drop_last() =~= ts.take(k as int));
            assert(ts.take(k + 1).last() == ts[k as int]);
            assert(ops_of(r@) =~= store_args(ts.take(k + 1), env, base as int));
        }
        k += 1;
    }
    assert(ts.take(args.len() as int) =~= ts);
    r
}

/// `n` slots copied from those at `from` to those at `to`.
pub fn compile_move_args(n: usize, from: i32, to: i32) -> (r: Vec<Instr>)
    requires
        -(MAX_FRAME as int) <= from,
        from + 8 * n <= MAX_FRAME,
        -(MAX_FRAME as int) <= to,
        to + 8 * n <= MAX_FRAME,
    ensures
        ops_of(r@) == move_args(n as nat, from as int, to as int),
{
    let mut r: Vec<Instr> = Vec::new();
    let mut k: usize = 0;
    assert(ops_of(r@) =~= Seq::<Op>::empty());
    while k < n
        invariant
            k <= n,
            -(MAX_FRAME as int) <= from,
            from + 8 * n <= MAX_FRAME,
            -(MAX_FRAME as int) <= to,
            to + 8 * n <= MAX_FRAME,
            ops_of(r@) == move_args(k as nat, from as int, to as int),
        decreases n - k,
    {
        let src: i32 = from + 8 * (k as i32);
        let dst: i32 = to + 8 * (k as i32);
        emit(
            &mut r,
            Instr::Mov(MovArgs::ToReg(Reg::Rax, Arg64::Mem(MemRef { reg: Reg::Rsp, offset: src }))),
        );
        emit(
            &mut r,
            Instr::Mov(
                MovArgs::ToMem(MemRef { reg: Reg::Rsp, offset: dst }, Reg32::Reg(Reg::Rax)),
            ),
        );
        assert(ops_of(r@) =~= move_args((k + 1) as nat, from as int, to as int));
        k += 1;
    }
    r
}

/// A call that returns.
pub fn compile_call(f: &String, args: &Vec<ImmExp>, stack: &Vec<(String, i32)>, frame: Frame) -> (r:
    Vec<Instr>)
    requires
        imms_bound(imm_terms(args@), keys(table_of(stack@))),
        8 * args.len() <= frame.size <= MAX_FRAME,
    ensures
        ops_of(r@) == call_ops(f@, imm_terms(args@), table_of(stack@), frame),
{
    let gap: u32 = frame.size + 8;
    let base: i32 = -(gap as i32);
    let mut r = compile_store_args(args, stack, base);
    emit(&mut r, Instr::Sub(BinArgs::ToReg(Reg::Rsp, Arg32::Unsigned(gap))));
    emit(&mut r, Instr::Call(function_label(f)));
    emit(&mut r, Instr::Add(BinArgs::ToReg(Reg::Rsp, Arg32::Unsigned(gap))));
    assert(ops_of(r@) =~= call_ops(f@, imm_terms(args@), table_of(stack@), frame));
    r
}

/// A call in place of a return.
pub fn compile_tail_call(
    f: &String,
    args: &Vec<ImmExp>,
    stack: &Vec<(String, i32)>,
    depth: usize,
) -> (r: Vec<Instr>)
    requires
        imms_bound(imm_terms(args@), keys(table_of(stack@))),
        8 * (depth + args.len()) <= MAX_FRAME,
        8 + 8 * args.len() <= MAX_FRAME,
    ensures
        ops_of(r@) == tail_call_ops(f@, imm_terms(args@), table_of(stack@), depth as nat),
{
    let base: i32 = -8 * ((depth + args.len()) as i32);
    let mut r = compile_store_args(args, stack, base);
    append_instrs(&mut r, compile_move_args(args.len(), base, 8));
    emit(&mut r, Instr::Jmp(function_label(f)));
    assert(ops_of(r@) =~= tail_call_ops(f@, imm_terms(args@), table_of(stack@), depth as nat));
    r
}

/// The instructions of an expression; its value ends in `rax`.
pub fn compile_to_instrs_inner(
    e: &SeqExp<()>,
    counter: &mut u32,
    frame: Frame,
    depth: usize,
    stack: &mut Vec<(String, i32)>,
) -> (r: Vec<Instr>)
    requires
        compilable(e@, keys(table_of(old(stack)@))),
        8 * (depth + slots(e@) + 1) <= frame.size <= MAX_FRAME,
        8 * frame.params + 8 <= MAX_FRAME,
        *old(counter) + labels(e@) <= u32::MAX,
    ensures
        ops_of(r@) == lower(
            e@,
            table_of(old(stack)@),
            depth as nat,
            *old(counter) as nat,
            frame,
        ),
        *final(counter) == *old(counter) + labels(e@),
        final(stack)@ == old(stack)@,
    decreases e,
{
    match e {
        SeqExp::Imm(imm, _) => imm_to_rax(imm, stack),
        SeqExp::Prim(p, args, _) => compile_prim(*p, args, stack, counter, frame),
        SeqExp::Let { var, bound_exp, body, .. } => {
            let ghost env = table_of(stack@);
            let mut r = compile_to_instrs_inner(bound_exp, counter, frame, depth, stack);
            let offset: i32 = -8 * ((depth + 1) as i32);
            emit(
                &mut r,
                Instr::Mov(MovArgs::ToMem(MemRef { reg: Reg::Rsp, offset }, Reg32::Reg(Reg::Rax))),
            );
            let len = stack.len();
            bind(stack, var.clone(), offset);
            proof {
                lemma_keys_push(env, var@, offset);
            }
            let rest = compile_to_instrs_inner(body, counter, frame, depth + 1, stack);
            append_instrs(&mut r, rest);
            unbind(stack, len);
            assert(stack@ =~= old(stack)@);
            assert(ops_of(r@) =~= lower(e@, env, depth as nat, *old(counter) as nat, frame));
            r
        },
        SeqExp::If { cond, thn, els, .. } => {
            let ghost env = table_of(stack@);
            let mut r = imm_to_rax(cond, stack);
            append_instrs(&mut r, if_check(Reg::Rax));
            *counter = *counter + 1;
            let n: u32 = *counter;
            emit(&mut r, Instr::Mov(MovArgs::ToReg(Reg::Rdx, Arg64::Unsigned(SNAKE_FLS))));
            emit(&mut r, Instr::Cmp(BinArgs::ToReg(Reg::Rax, Arg32::Reg(Reg::Rdx))));
            emit(&mut r, Instr::Je(numbered_name("else_", n)));
            let first = compile_to_instrs_inner(thn, counter, frame, depth, stack);
            append_instrs(&mut r, first);
            emit(&mut r, Instr::Jmp(numbered_name("done_", n)));
            emit(&mut r, Instr::Label(numbered_name("else_", n)));
            let second = compile_to_instrs_inner(els, counter, frame, depth, stack);
            append_instrs(&mut r, second);
            emit(&mut r, Instr::Label(numbered_name("done_", n)));
            assert(ops_of(r@) =~= lower(e@, env, depth as nat, *old(counter) as nat, frame));
            r
        },
        SeqExp::ExternalCall { fun_name, args, is_tail, .. } => {
            if *is_tail && args.len() <= frame.params {
                compile_tail_call(fun_name, args, stack, depth)
            } else {
                compile_call(fun_name, args, stack, frame)
            }
        },
        SeqExp::InternalTailCall(fun_name, args, _) => {
            if args.len() <= frame.params {
                compile_tail_call(fun_name, args, stack, depth)
            } else {
                compile_call(fun_name, args, stack, frame)
            }
        },
        SeqExp::FunDefs { .. } => Vec::new(),
    }
}

/// The local slots of an expression, counted.
pub fn count_slots(e: &SeqExp<()>) -> (n: usize)
    requires
        frame_bytes(slots(e@)) <= MAX_FRAME,
    ensures
        n == slots(e@),
    decreases e,
{
    match e {
        SeqExp::Let { bound_exp, body, .. } => {
            let a = count_slots(bound_exp);
            let b = count_slots(body);
            if a >= 1 + b {
                a
            } else {
                1 + b
            }
        },
        SeqExp::If { thn, els, .. } => {
            let a = count_slots(thn);
            let b = count_slots(els);
            if a >= b {
                a
            } else {
                b
            }
        },
        SeqExp::ExternalCall { args, .. } => {
            assert(imm_terms(args@).len() == args.len());
            args.len()
        },
        SeqExp::InternalTailCall(_, args, _) => {
            assert(imm_terms(args@).len() == args.len());
            args.len()
        },
        _ => 0,
    }
}

/// The size in bytes of the frame of a function with this body.
pub fn space_needed(e: &SeqExp<()>) -> (bytes: u32)
    requires
        frame_bytes(slots(e@)) <= MAX_FRAME,
    ensures
        bytes == frame_bytes(slots(e@)),
        bytes % 16 == 0,
{
    let n = count_slots(e);
    let words = n + 1 + (n + 1) % 2;
    (8 * words) as u32
}

/// The slots of the parameters: the first at `[rsp + 8]`, the next eight bytes
/// above it, and so on.
pub open spec fn param_slots(params: Seq<Name>) -> Seq<(Name, i32)> {
    Seq::new(params.len(), |i: int| (params[i], (8 * (i + 1)) as i32))
}

/// The frame of a function with this body and this many parameters.
pub open spec fn frame_of(body: SeqTerm, params: nat) -> Frame {
    Frame { size: frame_bytes(slots(body)) as u32, params: params as usize }
}

/// A function's code: its label, its body, and the return.
pub open spec fn fun_ops(d: SeqFunTerm, counter: nat) -> Seq<Op> {
    seq![Op::Label(fun_label(d.name))] + lower(
        d.body,
        param_slots(d.params),
        0,
        counter,
        frame_of(d.body, d.params.len()),
    ) + seq![Op::Ret]
}

/// The labels that the functions take together.
pub open spec fn funs_labels(ds: Seq<SeqFunTerm>) -> nat
    decreases ds.len(),
{
    if ds.len() == 0 {
        0
    } else {
        funs_labels(ds.drop_last()) + labels(ds.last().body)
    }
}

/// The code of the functions, one after the other.
pub open spec fn funs_ops(ds: Seq<SeqFunTerm>, counter: nat) -> Seq<Op>
    decreases ds.len(),
{
    if ds.len() == 0 {
        Seq::empty()
    } else {
        funs_ops(ds.drop_last(), counter) + fun_ops(
            ds.last(),
            counter + funs_labels(ds.drop_last()),
        )
    }
}

/// The code of the main expression, without its label: the body and the
/// return.
pub open spec fn main_ops(t: SeqTerm, counter: nat) -> Seq<Op> {
    lower(t, Seq::empty(), 0, counter, frame_of(t, 0)) + seq![Op::Ret]
}

/// One trap: its label, the error code in `rdi`, the value in `rsi`, and the
/// call of the runtime's error function.
pub open spec fn trap_ops(name: Name, code: i64) -> Seq<Op> {
    seq![
        Op::Label(name),
        mov_reg(Reg::Rdi, Arg64::Signed(code)),
        mov_reg(Reg::Rsi, Arg64::Reg(Reg::Rax)),
        Op::Call("snake_error"@),
    ]
}

/// The five traps.
pub open spec fn traps_ops() -> Seq<Op> {
    trap_ops("arith_error"@, 0) + trap_ops("cmp_error"@, 1) + trap_ops("overflow_error"@, 2)
        + trap_ops("if_error"@, 3) + trap_ops("logic_error"@, 4)
}

/// What a function must meet to be compiled.
pub open spec fn fun_compilable(d: SeqFunTerm) -> bool {
    &&& compilable(d.body, d.params)
    &&& frame_bytes(slots(d.body)) <= MAX_FRAME
    &&& 8 * d.params.len() + 8 <= MAX_FRAME
}

/// What a program must meet to be compiled: each function and the main
/// expression are closed and within the limits of a frame, and the labels can
/// be numbered.
pub open spec fn program_compilable(p: SeqProgTerm) -> bool {
    &&& forall|i: int| 0 <= i < p.funs.len() ==> fun_compilable(#[trigger] p.funs[i])
    &&& compilable(p.main, Seq::empty())
    &&& frame_bytes(slots(p.main)) <= MAX_FRAME
    &&& funs_labels(p.funs) + labels(p.main) <= u32::MAX
}

/// The lines before the code.
pub open spec fn header_text() -> Seq<char> {
    "        section .text\n        global start_here\n        extern snake_error\n        extern print_snake_val\n"@
}

/// The lines of the entry point, which calls the main expression.
pub open spec fn entry_text() -> Seq<char> {
    "start_here:\n        call main\n        ret\nmain:\n"@
}

/// The assembly text of a program.
pub open spec fn program_text(p: SeqProgTerm) -> Seq<char> {
    header_text() + ops_text(traps_ops()) + ops_text(funs_ops(p.funs, 0)) + entry_text()
        + ops_text(main_ops(p.main, funs_labels(p.funs)))
}

/// The code of the main expression.
pub fn compile_to_instrs(e: &SeqExp<()>, counter: &mut u32) -> (r: Vec<Instr>)
    requires
        compilable(e@, Seq::empty()),
        frame_bytes(slots(e@)) <= MAX_FRAME,
        *old(counter) + labels(e@) <= u32::MAX,
    ensures
        ops_of(r@) == main_ops(e@, *old(counter) as nat),
        *final(counter) == *old(counter) + labels(e@),
{
    let size = space_needed(e);
    let mut stack: Vec<(String, i32)> = Vec::new();
    assert(keys(table_of(stack@)) =~= Seq::<Name>::empty());
    assert(table_of(stack@) =~= Seq::<(Name, i32)>::empty());
    let mut is = compile_to_instrs_inner(e, counter, Frame { size, params: 0 }, 0, &mut stack);
    emit(&mut is, Instr::Ret);
    is
}

/// The slots of a function's parameters.
pub fn parameter_slots(params: &Vec<String>) -> (stack: Vec<(String, i32)>)
    requires
        8 * params.len() + 8 <= MAX_FRAME,
    ensures
        table_of(stack@) == param_slots(names_of(params@)),
        keys(table_of(stack@)) == names_of(params@),
{
    let mut stack: Vec<(String, i32)> = Vec::new();
    let mut i: usize = 0;
    while i < params.len()
        invariant
            i <= params.len(),
            8 * params.len() + 8 <= MAX_FRAME,
            stack.len() == i,
            forall|j: int| 0 <= j < i ==> stack[j].0@ == params[j]@ && stack[j].1 == 8 * (j + 1),
        decreases params.len() - i,
    {
        let offset: i32 = 8 * ((i + 1) as i32);
        stack.push((params[i].clone(), offset));
        i += 1;
    }
    assert(table_of(stack@) =~= param_slots(names_of(params@)));
    assert(keys(table_of(stack@)) =~= names_of(params@));
    stack
}

/// The code of one function.
pub fn compile_func_to_instr(f: &FunDecl<SeqExp<()>, ()>, counter: &mut u32) -> (r: Vec<Instr>)
    requires
        fun_compilable(seq_fun_term(*f)),
        *old(counter) + labels(f.body@) <= u32::MAX,
    ensures
        ops_of(r@) == fun_ops(seq_fun_term(*f), *old(counter) as nat),
        *final(counter) == *old(counter) + labels(f.body@),
{
    let size = space_needed(&f.body);
    let mut stack = parameter_slots(&f.parameters);
    let frame = Frame { size, params: f.parameters.len() };
    let mut r = vec![Instr::Label(function_label(&f.name))];
    assert(ops_of(r@) =~= seq![Op::Label(fun_label(f.name@))]);
    let body = compile_to_instrs_inner(&f.body, counter, frame, 0, &mut stack);
    append_instrs(&mut r, body);
    emit(&mut r, Instr::Ret);
    r
}

/// One trap.
pub fn trap_instrs(name: &str, code: i64) -> (r: Vec<Instr>)
    ensures
        ops_of(r@) == trap_ops(name@, code),
{
    let r = vec![
        Instr::Label(label(name)),
        Instr::Mov(MovArgs::ToReg(Reg::Rdi, Arg64::Signed(code))),
        Instr::Mov(MovArgs::ToReg(Reg::Rsi, Arg64::Reg(Reg::Rax))),
        Instr::Call(label("snake_error")),
    ];
    assert(ops_of(r@) =~= trap_ops(name@, code));
    r
}

/// The traps that report a run-time error to the runtime.
pub fn error_handle_instr() -> (r: Vec<Instr>)
    ensures
        ops_of(r@) == traps_ops(),
{
    let mut r = trap_instrs("arith_error", 0);
    append_instrs(&mut r, trap_instrs("cmp_error", 1));
    append_instrs(&mut r, trap_instrs("overflow_error", 2));
    append_instrs(&mut r, trap_instrs("if_error", 3));
    append_instrs(&mut r, trap_instrs("logic_error", 4));
    r
}

/// The code of every function of a program.
pub fn compile_funs(funs: &Vec<FunDecl<SeqExp<()>, ()>>, counter: &mut u32) -> (r: Vec<Instr>)
    requires
        forall|i: int|
            0 <= i < funs.len() ==> fun_compilable(#[trigger] seq_decl_terms(*funs)[i]),
        *old(counter) + funs_labels(seq_decl_terms(*funs)) <= u32::MAX,
    ensures
        ops_of(r@) == funs_ops(seq_decl_terms(*funs), *old(counter) as nat),
        *final(counter) == *old(counter) + funs_labels(seq_decl_terms(*funs)),
{
    let mut r: Vec<Instr> = Vec::new();
    let ghost ds = seq_decl_terms(*funs);
    let ghost start = *counter as nat;
    let mut i: usize = 0;
    assert(ops_of(r@) =~= Seq::<Op>::empty());
    assert(ds.take(0).len() == 0);
    while i < funs.len()
        invariant
            i <= funs.len(),
            ds == seq_decl_terms(*funs),
            ds.len() == funs.len(),
            forall|j: int| 0 <= j < funs.len() ==> fun_compilable(#[trigger] ds[j]),
            start + funs_labels(ds) <= u32::MAX,
            *counter == start + funs_labels(ds.take(i as int)),
            ops_of(r@) == funs_ops(ds.take(i as int), start),
        decreases funs.len() - i,
    {
        proof {
            assert(ds.take(i + 1).drop_last() =~= ds.take(i as int));
            assert(ds.take(i + 1).last() == ds[i as int]);
            assert(ds[i as int] == seq_fun_term(funs[i as int]));
            lemma_funs_labels_take(ds, i + 1);
        }
        let code = compile_func_to_instr(&funs[i], counter);
        append_instrs(&mut r, code);
        i += 1;
    }
    assert(ds.take(funs.len() as int) =~= ds);
    r
}

/// The labels of the first functions are among the labels of all of them.
pub proof fn lemma_funs_labels_take(ds: Seq<SeqFunTerm>, n: int)
    requires
        0 <= n <= ds.len(),
    ensures
        funs_labels(ds.take(n)) <= funs_labels(ds),
    decreases ds.len(),
{
    if n < ds.len() {
        lemma_funs_labels_take(ds.drop_last(), n);
        assert(ds.drop_last().take(n) =~= ds.take(n));
    } else {
        assert(ds.take(n) =~= ds);
    }
}

/// The assembly text of a program in sequential form.
pub fn compile_seq_prog(p: &SeqProg<()>) -> (text: String)
    requires
        program_compilable(p@),
    ensures
        text@ == program_text(p@),
{
    let mut counter: u32 = 0;
    let mut text = String::from_str(
        "        section .text\n        global start_here\n        extern snake_error\n        extern print_snake_val\n",
    );
    let traps = instrs_to_string(&error_handle_instr());
    text.append(traps.as_str());
    let funs = instrs_to_string(&compile_funs(&p.funs, &mut counter));
    text.append(funs.as_str());
    text.append("start_here:\n        call main\n        ret\nmain:\n");
    let main = instrs_to_string(&compile_to_instrs(&p.main, &mut counter));
    text.append(main.as_str());
    text
}

} // verus!
