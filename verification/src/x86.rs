//! The target: a small subset of x86-64 and its rendering as Intel-syntax
//! assembly text.

use crate::names::{hex_word, hex_word_string, signed_decimal, signed_decimal_string};
use crate::syntax::Name;
use vstd::prelude::*;

verus! {

#[derive(Clone, Copy, Debug, PartialEq, Eq, Structural)]
pub enum Reg {
    Rax,
    Rcx,
    Rdx,
    Rsi,
    Rdi,
    Rsp,
}

/// The memory operand `[reg + offset]`.
#[derive(Clone, Copy, Debug, PartialEq, Eq, Structural)]
pub struct MemRef {
    pub reg: Reg,
    pub offset: i32,
}

/// A source operand of `mov`, the one instruction that takes a 64-bit immediate.
#[derive(Clone, Copy, Debug, PartialEq, Eq, Structural)]
pub enum Arg64 {
    Reg(Reg),
    Signed(i64),
    Unsigned(u64),
    Mem(MemRef),
}

/// A source operand of the other instructions.
#[derive(Clone, Copy, Debug, PartialEq, Eq, Structural)]
pub enum Arg32 {
    Reg(Reg),
    Signed(i32),
    Unsigned(u32),
    Mem(MemRef),
}

/// A source operand where the destination is memory.
#[derive(Clone, Copy, Debug, PartialEq, Eq, Structural)]
pub enum Reg32 {
    Reg(Reg),
    Signed(i32),
    Unsigned(u32),
}

#[derive(Clone, Copy, Debug, PartialEq, Eq, Structural)]
pub enum MovArgs {
    ToReg(Reg, Arg64),
    ToMem(MemRef, Reg32),
}

#[derive(Clone, Copy, Debug, PartialEq, Eq, Structural)]
pub enum BinArgs {
    ToReg(Reg, Arg32),
    ToMem(MemRef, Reg32),
}

#[derive(Debug, PartialEq, Eq)]
pub enum Instr {
    Mov(MovArgs),
    Add(BinArgs),
    Sub(BinArgs),
    IMul(BinArgs),
    And(BinArgs),
    Or(BinArgs),
    Xor(BinArgs),
    Shl(BinArgs),
    Sar(BinArgs),
    Cmp(BinArgs),
    Je(String),
    Jne(String),
    Jo(String),
    Jmp(String),
    Call(String),
    Ret,
    Label(String),
}

/// An instruction as the specifications see it: labels are sequences of
/// characters.
pub ghost enum Op {
    Mov(MovArgs),
    Add(BinArgs),
    Sub(BinArgs),
    IMul(BinArgs),
    And(BinArgs),
    Or(BinArgs),
    Xor(BinArgs),
    Shl(BinArgs),
    Sar(BinArgs),
    Cmp(BinArgs),
    Je(Name),
    Jne(Name),
    Jo(Name),
    Jmp(Name),
    Call(Name),
    Ret,
    Label(Name),
}

impl View for Instr {
    type V = Op;

    open spec fn view(&self) -> Op {
        match self {
            Instr::Mov(a) => Op::Mov(*a),
            Instr::Add(a) => Op::Add(*a),
            Instr::Sub(a) => Op::Sub(*a),
            Instr::IMul(a) => Op::IMul(*a),
            Instr::And(a) => Op::And(*a),
            Instr::Or(a) => Op::Or(*a),
            Instr::Xor(a) => Op::Xor(*a),
            Instr::Shl(a) => Op::Shl(*a),
            Instr::Sar(a) => Op::Sar(*a),
            Instr::Cmp(a) => Op::Cmp(*a),
            Instr::Je(l) => Op::Je(l@),
            Instr::Jne(l) => Op::Jne(l@),
            Instr::Jo(l) => Op::Jo(l@),
            Instr::Jmp(l) => Op::Jmp(l@),
            Instr::Call(l) => Op::Call(l@),
            Instr::Ret => Op::Ret,
            Instr::Label(l) => Op::Label(l@),
        }
    }
}

/// The instructions that a vector holds.
pub open spec fn ops_of(v: Seq<Instr>) -> Seq<Op> {
    Seq::new(v.len(), |i: int| v[i]@)
}

pub open spec fn reg_text(r: Reg) -> Seq<char> {
    match r {
        Reg::Rax => "rax"@,
        Reg::Rcx => "rcx"@,
        Reg::Rdx => "rdx"@,
        Reg::Rsi => "rsi"@,
        Reg::Rdi => "rdi"@,
        Reg::Rsp => "rsp"@,
    }
}

pub open spec fn mem_ref_text(m: MemRef) -> Seq<char> {
    if m.offset < 0 {
        "QWORD ["@ + reg_text(m.reg) + " - "@ + signed_decimal(-(m.offset as int)) + "]"@
    } else {
        "QWORD ["@ + reg_text(m.reg) + " + "@ + signed_decimal(m.offset as int) + "]"@
    }
}

pub open spec fn arg64_text(a: Arg64) -> Seq<char> {
    match a {
        Arg64::Reg(r) => reg_text(r),
        Arg64::Signed(i) => signed_decimal(i as int),
        Arg64::Unsigned(u) => hex_word(u as nat),
        Arg64::Mem(m) => mem_ref_text(m),
    }
}

pub open spec fn arg32_text(a: Arg32) -> Seq<char> {
    match a {
        Arg32::Reg(r) => reg_text(r),
        Arg32::Signed(i) => signed_decimal(i as int),
        Arg32::Unsigned(u) => signed_decimal(u as int),
        Arg32::Mem(m) => mem_ref_text(m),
    }
}

pub open spec fn reg32_text(a: Reg32) -> Seq<char> {
    match a {
        Reg32::Reg(r) => reg_text(r),
        Reg32::Signed(i) => signed_decimal(i as int),
        Reg32::Unsigned(u) => signed_decimal(u as int),
    }
}

pub open spec fn mov_args_text(a: MovArgs) -> Seq<char> {
    match a {
        MovArgs::ToReg(r, src) => reg_text(r) + ", "@ + arg64_text(src),
        MovArgs::ToMem(m, src) => mem_ref_text(m) + ", "@ + reg32_text(src),
    }
}

pub open spec fn bin_args_text(a: BinArgs) -> Seq<char> {
    match a {
        BinArgs::ToReg(r, src) => reg_text(r) + ", "@ + arg32_text(src),
        BinArgs::ToMem(m, src) => mem_ref_text(m) + ", "@ + reg32_text(src),
    }
}

/// The indentation of an instruction and its mnemonic, with the blank that
/// parts it from the operands; for a label, nothing.
pub open spec fn mnemonic_text(op: Op) -> Seq<char> {
    match op {
        Op::Mov(_) => "        mov "@,
        Op::Add(_) => "        add "@,
        Op::Sub(_) => "        sub "@,
        Op::IMul(_) => "        imul "@,
        Op::And(_) => "        and "@,
        Op::Or(_) => "        or "@,
        Op::Xor(_) => "        xor "@,
        Op::Shl(_) => "        shl "@,
        Op::Sar(_) => "        sar "@,
        Op::Cmp(_) => "        cmp "@,
        Op::Je(_) => "        je "@,
        Op::Jne(_) => "        jne "@,
        Op::Jo(_) => "        jo "@,
        Op::Jmp(_) => "        jmp "@,
        Op::Call(_) => "        call "@,
        Op::Ret => "        ret"@,
        Op::Label(_) => Seq::empty(),
    }
}

/// What follows the mnemonic.
pub open spec fn operand_text(op: Op) -> Seq<char> {
    match op {
        Op::Mov(a) => mov_args_text(a),
        Op::Add(a) | Op::Sub(a) | Op::IMul(a) | Op::And(a) | Op::Or(a) | Op::Xor(a) | Op::Shl(
            a,
        ) | Op::Sar(a) | Op::Cmp(a) => bin_args_text(a),
        Op::Je(l) | Op::Jne(l) | Op::Jo(l) | Op::Jmp(l) | Op::Call(l) => l,
        Op::Ret => Seq::empty(),
        Op::Label(l) => l + ":"@,
    }
}

/// One line of assembly, without the line break.
pub open spec fn op_text(op: Op) -> Seq<char> {
    mnemonic_text(op) + operand_text(op)
}

/// The lines of a sequence of instructions, each ended by a line break.
pub open spec fn ops_text(ops: Seq<Op>) -> Seq<char>
    decreases ops.len(),
{
    if ops.len() == 0 {
        Seq::empty()
    } else {
        ops_text(ops.drop_last()) + op_text(ops.last()) + "\n"@
    }
}

pub fn reg_to_string(r: Reg) -> (s: String)
    ensures
        s@ == reg_text(r),
{
    match r {
        Reg::Rax => String::from_str("rax"),
        Reg::Rcx => String::from_str("rcx"),
        Reg::Rdx => String::from_str("rdx"),
        Reg::Rsi => String::from_str("rsi"),
        Reg::Rdi => String::from_str("rdi"),
        Reg::Rsp => String::from_str("rsp"),
    }
}

pub fn mem_ref_to_string(m: &MemRef) -> (s: String)
    ensures
        s@ == mem_ref_text(*m),
{
    let mut s = String::from_str("QWORD [");
    let r = reg_to_string(m.reg);
    s.append(r.as_str());
    if m.offset < 0 {
        s.append(" - ");
        let d = signed_decimal_string(-(m.offset as i64));
        s.append(d.as_str());
    } else {
        s.append(" + ");
        let d = signed_decimal_string(m.offset as i64);
        s.append(d.as_str());
    }
    s.append("]");
    s
}

pub fn arg64_to_string(a: &Arg64) -> (s: String)
    ensures
        s@ == arg64_text(*a),
{
    match a {
        Arg64::Reg(r) => reg_to_string(*r),
        Arg64::Signed(i) => signed_decimal_string(*i),
        Arg64::Unsigned(u) => hex_word_string(*u),
        Arg64::Mem(m) => mem_ref_to_string(m),
    }
}

pub fn arg32_to_string(a: &Arg32) -> (s: String)
    ensures
        s@ == arg32_text(*a),
{
    match a {
        Arg32::Reg(r) => reg_to_string(*r),
        Arg32::Signed(i) => signed_decimal_string(*i as i64),
        Arg32::Unsigned(u) => signed_decimal_string(*u as i64),
        Arg32::Mem(m) => mem_ref_to_string(m),
    }
}

pub fn reg32_to_string(a: &Reg32) -> (s: String)
    ensures
        s@ == reg32_text(*a),
{
    match a {
        Reg32::Reg(r) => reg_to_string(*r),
        Reg32::Signed(i) => signed_decimal_string(*i as i64),
        Reg32::Unsigned(u) => signed_decimal_string(*u as i64),
    }
}

pub fn mov_args_to_string(a: &MovArgs) -> (s: String)
    ensures
        s@ == mov_args_text(*a),
{
    match a {
        MovArgs::ToReg(r, src) => {
            let mut s = reg_to_string(*r);
            s.append(", ");
            let t = arg64_to_string(src);
            s.append(t.as_str());
            s
        },
        MovArgs::ToMem(m, src) => {
            let mut s = mem_ref_to_string(m);
            s.append(", ");
            let t = reg32_to_string(src);
            s.append(t.as_str());
            s
        },
    }
}

pub fn bin_args_to_string(a: &BinArgs) -> (s: String)
    ensures
        s@ == bin_args_text(*a),
{
    match a {
        BinArgs::ToReg(r, src) => {
            let mut s = reg_to_string(*r);
            s.append(", ");
            let t = arg32_to_string(src);
            s.append(t.as_str());
            s
        },
        BinArgs::ToMem(m, src) => {
            let mut s = mem_ref_to_string(m);
            s.append(", ");
            let t = reg32_to_string(src);
            s.append(t.as_str());
            s
        },
    }
}

/// The indentation and mnemonic of an instruction.
pub fn mnemonic(i: &Instr) -> (s: &'static str)
    ensures
        s@ == mnemonic_text(i@),
{
    match i {
        Instr::Mov(_) => "        mov ",
        Instr::Add(_) => "        add ",
        Instr::Sub(_) => "        sub ",
        Instr::IMul(_) => "        imul ",
        Instr::And(_) => "        and ",
        Instr::Or(_) => "        or ",
        Instr::Xor(_) => "        xor ",
        Instr::Shl(_) => "        shl ",
        Instr::Sar(_) => "        sar ",
        Instr::Cmp(_) => "        cmp ",
        Instr::Je(_) => "        je ",
        Instr::Jne(_) => "        jne ",
        Instr::Jo(_) => "        jo ",
        Instr::Jmp(_) => "        jmp ",
        Instr::Call(_) => "        call ",
        Instr::Ret => "        ret",
        Instr::Label(_) => {
            proof {
                reveal_strlit("");
            }
            assert(""@ =~= Seq::<char>::empty());
            ""
        },
    }
}

/// The operands of an instruction as text.
pub fn operands_to_string(i: &Instr) -> (s: String)
    ensures
        s@ == operand_text(i@),
{
    match i {
        Instr::Mov(a) => mov_args_to_string(a),
        Instr::Add(a) | Instr::Sub(a) | Instr::IMul(a) | Instr::And(a) | Instr::Or(a) | Instr::Xor(
            a,
        ) | Instr::Shl(a) | Instr::Sar(a) | Instr::Cmp(a) => bin_args_to_string(a),
        Instr::Je(l) | Instr::Jne(l) | Instr::Jo(l) | Instr::Jmp(l) | Instr::Call(l) => l.clone(),
        Instr::Ret => {
            let s = String::new();
            s
        },
        Instr::Label(l) => {
            let mut s = l.clone();
            s.append(":");
            s
        },
    }
}

/// One line of assembly, without the line break.
pub fn instr_to_string(i: &Instr) -> (s: String)
    ensures
        s@ == op_text(i@),
{
    let mut s = String::from_str(mnemonic(i));
    let t = operands_to_string(i);
    s.append(t.as_str());
    s
}

/// The assembly text of a sequence of instructions, one per line.
pub fn instrs_to_string(is: &Vec<Instr>) -> (s: String)
    ensures
        s@ == ops_text(ops_of(is@)),
{
    let mut buf = String::new();
    let ghost ops = ops_of(is@);
    let mut k: usize = 0;
    assert(ops.take(0) =~= Seq::<Op>::empty());
    while k < is.len()
        invariant
            k <= is.len(),
            ops == ops_of(is@),
            buf@ == ops_text(ops.take(k as int)),
        decreases is.len() - k,
    {
        let line = instr_to_string(&is[k]);
        buf.append(line.as_str());
        buf.append("\n");
        proof {
            assert(ops.take(k + 1).drop_last() =~= ops.take(k as int));
            assert(ops.take(k + 1).last() == is@[k as int]@);
        }
        k += 1;
    }
    assert(ops.take(is.len() as int) =~= ops);
    buf
}

} // verus!
