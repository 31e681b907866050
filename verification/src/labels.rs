//! The labels of generated code: those that the code of an expression
//! defines are numbered, each number is used once, and none is the label of
//! a trap or of a function.

use crate::compile::{add1_sub1_ops, add_sub_ops, and_or_ops, call_gap, call_ops, Check, check_ops};
use crate::compile::{checked_operands, difference_ops, Frame, fun_label, imm_arg, is_neg_ops};
use crate::compile::{is_non_neg_ops, labels, load_rax, lower, mov_reg, move_args, mul_ops, not_ops};
use crate::compile::{prim_labels, prim_ops, SNAKE_FLS, store_args, store_rax, swap_ops};
use crate::compile::tail_call_ops;
use crate::machine::{find_label, label_free};
use crate::names::{decimal, lemma_decimal_digits, lemma_decimal_injective, numbered};
use crate::syntax::{ImmTerm, Name, Prim, SeqTerm};
use crate::x86::{Arg32, Arg64, BinArgs, Op, Reg};
use vstd::prelude::*;

verus! {

/// The four beginnings of the labels that the code of an expression
/// defines.
pub open spec fn local_prefix(p: Seq<char>) -> bool {
    p == "else_"@ || p == "done_"@ || p == "true_"@ || p == "cmp_done_"@
}

/// Whether a label is one of the five traps.
pub open spec fn trap_label(l: Name) -> bool {
    l == "arith_error"@ || l == "cmp_error"@ || l == "overflow_error"@ || l == "if_error"@ || l
        == "logic_error"@
}

/// Whether a label is that of a function.
pub open spec fn function_label(l: Name) -> bool {
    l.len() >= 4 && l.take(4) == "fun_"@
}

/// Whether a label is one that the code of an expression jumps to but does
/// not define.
pub open spec fn outer_label(l: Name) -> bool {
    trap_label(l) || function_label(l)
}

/// What the beginnings of the labels are made of.
pub proof fn lemma_prefixes()
    ensures
        "else_"@.len() == 5 && "else_"@[0] == 'e',
        "done_"@.len() == 5 && "done_"@[0] == 'd',
        "true_"@.len() == 5 && "true_"@[0] == 't',
        "cmp_done_"@.len() == 9 && "cmp_done_"@[0] == 'c' && "cmp_done_"@[4] == 'd',
        "arith_error"@.len() == 11 && "arith_error"@[0] == 'a',
        "cmp_error"@.len() == 9 && "cmp_error"@[0] == 'c' && "cmp_error"@[4] == 'e',
        "overflow_error"@.len() == 14 && "overflow_error"@[0] == 'o',
        "if_error"@.len() == 8 && "if_error"@[0] == 'i',
        "logic_error"@.len() == 11 && "logic_error"@[0] == 'l',
        "fun_"@.len() == 4 && "fun_"@[0] == 'f',
{
    reveal_strlit("else_");
    reveal_strlit("done_");
    reveal_strlit("true_");
    reveal_strlit("cmp_done_");
    reveal_strlit("arith_error");
    reveal_strlit("cmp_error");
    reveal_strlit("overflow_error");
    reveal_strlit("if_error");
    reveal_strlit("logic_error");
    reveal_strlit("fun_");
}

/// Two numbered labels are the same only where they begin the same and
/// carry the same number.
pub proof fn lemma_numbered_distinct(p1: Seq<char>, n1: nat, p2: Seq<char>, n2: nat)
    requires
        local_prefix(p1),
        local_prefix(p2),
        numbered(p1, n1) == numbered(p2, n2),
    ensures
        p1 == p2,
        n1 == n2,
{
    lemma_prefixes();
    let a = numbered(p1, n1);
    let b = numbered(p2, n2);
    assert(a[0] == p1[0]);
    assert(b[0] == p2[0]);
    assert(p1 == p2);
    assert(a.skip(p1.len() as int) =~= decimal(n1));
    assert(b.skip(p2.len() as int) =~= decimal(n2));
    lemma_decimal_injective(n1, n2);
}

/// No numbered label is the label of a trap or of a function.
pub proof fn lemma_outer_not_numbered(l: Name, p: Seq<char>, n: nat)
    requires
        outer_label(l),
        local_prefix(p),
    ensures
        l != numbered(p, n),
{
    lemma_prefixes();
    lemma_decimal_digits(n);
    let a = numbered(p, n);
    assert(a[0] == p[0]);
    if function_label(l) {
        assert(l.take(4)[0] == l[0]);
    }
    if l == "cmp_error"@ && p == "cmp_done_"@ {
        assert(a[4] == p[4]);
    }
}

/// The label of a function is one.
pub proof fn lemma_fun_label(f: Name)
    ensures
        function_label(fun_label(f)),
{
    lemma_prefixes();
    assert(fun_label(f).take(4) =~= "fun_"@);
}

/// Whether every label that a block defines is a numbered one, with a
/// number above `lo` and not above `hi`.
pub open spec fn labels_between(ops: Seq<Op>, lo: nat, hi: nat) -> bool {
    forall|i: int|
        0 <= i < ops.len() ==> (#[trigger] ops[i] matches Op::Label(l) ==> exists|
            p: Seq<char>,
            n: nat,
        |
            local_prefix(p) && lo < n <= hi && l == #[trigger] numbered(p, n))
}

/// A block whose labels are numbered between bounds defines no label that
/// is none of these.
pub proof fn lemma_label_absent(ops: Seq<Op>, lo: nat, hi: nat, l: Name)
    requires
        labels_between(ops, lo, hi),
        forall|p: Seq<char>, n: nat| local_prefix(p) && lo < n <= hi ==> l != #[trigger] numbered(p, n),
    ensures
        find_label(ops, l) == ops.len(),
    decreases ops.len(),
{
    if ops.len() > 0 {
        assert(ops[0] != Op::Label(l)) by {
            if ops[0] == Op::Label(l) {
                let (p, n) = choose|p: Seq<char>, n: nat|
                    local_prefix(p) && lo < n <= hi && l == #[trigger] numbered(p, n);
                assert(l != numbered(p, n));
            }
        }
        assert forall|i: int| 0 <= i < ops.drop_first().len() implies (
        #[trigger] ops.drop_first()[i] matches Op::Label(l2) ==> exists|p: Seq<char>, n: nat|
            local_prefix(p) && lo < n <= hi && l2 == #[trigger] numbered(p, n)) by {
            assert(ops.drop_first()[i] == ops[i + 1]);
        }
        lemma_label_absent(ops.drop_first(), lo, hi, l);
    }
}

/// A block whose labels are numbered defines no label of a trap or of a
/// function.
pub proof fn lemma_outer_absent(ops: Seq<Op>, lo: nat, hi: nat, l: Name)
    requires
        labels_between(ops, lo, hi),
        outer_label(l),
    ensures
        find_label(ops, l) == ops.len(),
{
    assert forall|p: Seq<char>, n: nat| local_prefix(p) && lo < n <= hi implies l
        != #[trigger] numbered(p, n) by {
        lemma_outer_not_numbered(l, p, n);
    }
    lemma_label_absent(ops, lo, hi, l);
}

/// A block whose labels are numbered between bounds defines no label with
/// a number outside them.
pub proof fn lemma_numbered_absent(ops: Seq<Op>, lo: nat, hi: nat, q: Seq<char>, m: nat)
    requires
        labels_between(ops, lo, hi),
        local_prefix(q),
        m <= lo || m > hi,
    ensures
        find_label(ops, numbered(q, m)) == ops.len(),
{
    assert forall|p: Seq<char>, n: nat| local_prefix(p) && lo < n <= hi implies numbered(q, m)
        != #[trigger] numbered(p, n) by {
        if numbered(q, m) == numbered(p, n) {
            lemma_numbered_distinct(q, m, p, n);
        }
    }
    lemma_label_absent(ops, lo, hi, numbered(q, m));
}

/// Bounds can be widened.
pub proof fn lemma_labels_widen(ops: Seq<Op>, lo: nat, hi: nat, lo2: nat, hi2: nat)
    requires
        labels_between(ops, lo, hi),
        lo2 <= lo,
        hi <= hi2,
    ensures
        labels_between(ops, lo2, hi2),
{
    assert forall|i: int| 0 <= i < ops.len() implies (#[trigger] ops[i] matches Op::Label(l)
        ==> exists|p: Seq<char>, n: nat|
        local_prefix(p) && lo2 < n <= hi2 && l == #[trigger] numbered(p, n)) by {
        if let Op::Label(l) = ops[i] {
            let (p, n) = choose|p: Seq<char>, n: nat|
                local_prefix(p) && lo < n <= hi && l == #[trigger] numbered(p, n);
            assert(local_prefix(p) && lo2 < n <= hi2 && l == numbered(p, n));
        }
    }
}

/// The labels of a block after another are those of both.
pub proof fn lemma_labels_concat(a: Seq<Op>, b: Seq<Op>, lo: nat, hi: nat)
    requires
        labels_between(a, lo, hi),
        labels_between(b, lo, hi),
    ensures
        labels_between(a + b, lo, hi),
{
    assert forall|i: int| 0 <= i < (a + b).len() implies (#[trigger] (a + b)[i] matches Op::Label(l)
        ==> exists|p: Seq<char>, n: nat|
        local_prefix(p) && lo < n <= hi && l == #[trigger] numbered(p, n)) by {
        if i < a.len() {
            assert((a + b)[i] == a[i]);
        } else {
            assert((a + b)[i] == b[i - a.len()]);
        }
    }
}

/// A block without labels has its labels between any bounds.
pub proof fn lemma_no_labels(ops: Seq<Op>, lo: nat, hi: nat)
    requires
        label_free(ops),
    ensures
        labels_between(ops, lo, hi),
{
}

/// A block without labels after another is without labels.
pub proof fn lemma_free_concat(a: Seq<Op>, b: Seq<Op>)
    requires
        label_free(a),
        label_free(b),
    ensures
        label_free(a + b),
{
    assert forall|i: int| 0 <= i < (a + b).len() implies !(#[trigger] (a + b)[i] is Label) by {
        if i < a.len() {
            assert((a + b)[i] == a[i]);
        } else {
            assert((a + b)[i] == b[i - a.len()]);
        }
    }
}

/// The check of a tag defines no label.
pub proof fn lemma_check_free(c: Check, r: Reg)
    ensures
        label_free(check_ops(c, r)),
{
}

pub proof fn lemma_checked_operands_free(
    c: Check,
    a: ImmTerm,
    b: ImmTerm,
    env: Seq<(Name, i32)>,
)
    ensures
        label_free(checked_operands(c, a, b, env)),
{
    let m1 = seq![mov_reg(Reg::Rax, imm_arg(a, env))];
    let m2 = seq![mov_reg(Reg::Rdx, Arg64::Reg(Reg::Rax)), mov_reg(Reg::Rax, imm_arg(b, env))];
    let c1 = check_ops(c, Reg::Rax);
    lemma_check_free(c, Reg::Rax);
    lemma_free_concat(m1, c1);
    lemma_free_concat(m1 + c1, m2);
    lemma_free_concat(m1 + c1 + m2, c1);
    lemma_free_concat(m1 + c1 + m2 + c1, swap_ops());
}

/// The stores of the arguments of a call define no label.
pub proof fn lemma_store_args_free(args: Seq<ImmTerm>, env: Seq<(Name, i32)>, base: int)
    ensures
        label_free(store_args(args, env, base)),
    decreases args.len(),
{
    if args.len() > 0 {
        lemma_store_args_free(args.drop_last(), env, base);
        let last = seq![
            mov_reg(Reg::Rax, imm_arg(args.last(), env)),
            store_rax(base + 8 * (args.len() - 1)),
        ];
        lemma_free_concat(store_args(args.drop_last(), env, base), last);
    }
}

pub proof fn lemma_move_args_free(n: nat, from: int, to: int)
    ensures
        label_free(move_args(n, from, to)),
    decreases n,
{
    if n > 0 {
        lemma_move_args_free((n - 1) as nat, from, to);
        let last = seq![
            load_rax(from + 8 * (n - 1)),
            store_rax(to + 8 * (n - 1)),
        ];
        lemma_free_concat(move_args((n - 1) as nat, from, to), last);
    }
}

/// The code of a call defines no label.
pub proof fn lemma_call_free(
    f: Name,
    args: Seq<ImmTerm>,
    env: Seq<(Name, i32)>,
    depth: nat,
    frame: Frame,
)
    ensures
        label_free(call_ops(f, args, env, frame)),
        label_free(tail_call_ops(f, args, env, depth)),
{
    let gap = call_gap(frame);
    lemma_store_args_free(args, env, -(gap as int));
    let around = seq![
        Op::Sub(BinArgs::ToReg(Reg::Rsp, Arg32::Unsigned(gap))),
        Op::Call(fun_label(f)),
        Op::Add(BinArgs::ToReg(Reg::Rsp, Arg32::Unsigned(gap))),
    ];
    lemma_free_concat(store_args(args, env, -(gap as int)), around);
    let base = -8 * (depth + args.len());
    lemma_store_args_free(args, env, base);
    lemma_move_args_free(args.len(), base, 8);
    lemma_free_concat(store_args(args, env, base), move_args(args.len(), base, 8));
    lemma_free_concat(
        store_args(args, env, base) + move_args(args.len(), base, 8),
        seq![Op::Jmp(fun_label(f))],
    );
}

/// The code of a primitive other than the two tests of equality defines
/// no label.
pub proof fn lemma_prim_free(
    p: Prim,
    args: Seq<ImmTerm>,
    env: Seq<(Name, i32)>,
    counter: nat,
    frame: Frame,
)
    requires
        p != Prim::Eq,
        p != Prim::Neq,
    ensures
        label_free(prim_ops(p, args, env, counter, frame)),
{
    let a = args[0];
    let b = args[1];
    lemma_check_free(Check::Arith, Reg::Rax);
    lemma_check_free(Check::Logic, Reg::Rax);
    lemma_checked_operands_free(Check::Arith, a, b, env);
    lemma_checked_operands_free(Check::Logic, a, b, env);
    lemma_checked_operands_free(Check::Cmp, a, b, env);
    let load = seq![mov_reg(Reg::Rax, imm_arg(a, env))];
    match p {
        Prim::Add1 | Prim::Sub1 => {
            lemma_free_concat(load, check_ops(Check::Arith, Reg::Rax));
            let ops = add1_sub1_ops(p, a, env);
            let front = load + check_ops(Check::Arith, Reg::Rax);
            assert forall|i: int| 0 <= i < ops.len() implies !(#[trigger] ops[i] is Label) by {
                if i < front.len() {
                    assert(ops[i] == front[i]);
                }
            }
        },
        Prim::Not => {
            lemma_free_concat(load, check_ops(Check::Logic, Reg::Rax));
            let ops = not_ops(a, env);
            let front = load + check_ops(Check::Logic, Reg::Rax);
            assert forall|i: int| 0 <= i < ops.len() implies !(#[trigger] ops[i] is Label) by {
                if i < front.len() {
                    assert(ops[i] == front[i]);
                }
            }
        },
        Prim::Print => {},
        Prim::IsBool | Prim::IsNum => {},
        Prim::Add | Prim::Sub => {
            let ops = add_sub_ops(p, a, b, env);
            let front = checked_operands(Check::Arith, a, b, env);
            assert forall|i: int| 0 <= i < ops.len() implies !(#[trigger] ops[i] is Label) by {
                if i < front.len() {
                    assert(ops[i] == front[i]);
                }
            }
        },
        Prim::Mul => {
            let ops = mul_ops(a, b, env);
            let front = checked_operands(Check::Arith, a, b, env);
            assert forall|i: int| 0 <= i < ops.len() implies !(#[trigger] ops[i] is Label) by {
                if i < front.len() {
                    assert(ops[i] == front[i]);
                }
            }
        },
        Prim::And | Prim::Or => {
            let ops = and_or_ops(p, a, b, env);
            let front = checked_operands(Check::Logic, a, b, env);
            assert forall|i: int| 0 <= i < ops.len() implies !(#[trigger] ops[i] is Label) by {
                if i < front.len() {
                    assert(ops[i] == front[i]);
                }
            }
        },
        Prim::Lt | Prim::Gt | Prim::Le | Prim::Ge => {
            let reverse = p == Prim::Gt || p == Prim::Le;
            let front = checked_operands(Check::Cmp, a, b, env);
            let diff = difference_ops(a, b, env, reverse);
            assert forall|i: int| 0 <= i < diff.len() implies !(#[trigger] diff[i] is Label) by {
                if i < front.len() {
                    assert(diff[i] == front[i]);
                }
            }
            assert(label_free(is_neg_ops()));
            assert(label_free(is_non_neg_ops()));
            if p == Prim::Lt || p == Prim::Gt {
                lemma_free_concat(diff, is_neg_ops());
            } else {
                lemma_free_concat(diff, is_non_neg_ops());
            }
        },
        _ => {},
    }
}

/// The labels that the code of a primitive defines are numbered after the
/// counter.
pub proof fn lemma_prim_labels(
    p: Prim,
    args: Seq<ImmTerm>,
    env: Seq<(Name, i32)>,
    counter: nat,
    frame: Frame,
)
    ensures
        labels_between(
            prim_ops(p, args, env, counter, frame),
            counter,
            counter + prim_labels(p),
        ),
{
    if p == Prim::Eq || p == Prim::Neq {
        let ops = prim_ops(p, args, env, counter, frame);
        let n = counter + 1;
        assert forall|i: int| 0 <= i < ops.len() implies (#[trigger] ops[i] matches Op::Label(l)
            ==> exists|q: Seq<char>, m: nat|
            local_prefix(q) && counter < m <= counter + 1 && l == #[trigger] numbered(q, m)) by {
            if let Op::Label(l) = ops[i] {
                if i == 6 {
                    assert(local_prefix("true_"@) && l == numbered("true_"@, n));
                } else {
                    assert(i == 8);
                    assert(local_prefix("cmp_done_"@) && l == numbered("cmp_done_"@, n));
                }
            }
        }
    } else {
        lemma_prim_free(p, args, env, counter, frame);
    }
}

/// The labels that the code of an expression defines are numbered after
/// the counter, as many as the expression takes.
pub proof fn lemma_lower_labels(
    t: SeqTerm,
    env: Seq<(Name, i32)>,
    depth: nat,
    counter: nat,
    frame: Frame,
)
    ensures
        labels_between(lower(t, env, depth, counter, frame), counter, counter + labels(t)),
    decreases t,
{
    let total = counter + labels(t);
    match t {
        SeqTerm::Imm(_) => {},
        SeqTerm::Prim(p, args) => {
            lemma_prim_labels(p, args, env, counter, frame);
        },
        SeqTerm::Let(x, b, body) => {
            let offset = -8 * (depth + 1);
            let first = lower(*b, env, depth, counter, frame);
            let second = lower(
                *body,
                env.push((x, offset as i32)),
                depth + 1,
                counter + labels(*b),
                frame,
            );
            lemma_lower_labels(*b, env, depth, counter, frame);
            lemma_lower_labels(
                *body,
                env.push((x, offset as i32)),
                depth + 1,
                counter + labels(*b),
                frame,
            );
            lemma_labels_widen(first, counter, counter + labels(*b), counter, total);
            lemma_labels_widen(second, counter + labels(*b), total, counter, total);
            lemma_labels_concat(first, seq![store_rax(offset)], counter, total);
            lemma_labels_concat(
                first + seq![store_rax(offset)],
                second,
                counter,
                total,
            );
        },
        SeqTerm::If(c, a, b) => {
            let n = counter + 1;
            let head = seq![
                mov_reg(Reg::Rax, imm_arg(c, env)),
            ] + check_ops(Check::If, Reg::Rax) + seq![
                mov_reg(
                    Reg::Rdx,
                    Arg64::Unsigned(SNAKE_FLS),
                ),
                Op::Cmp(
                    BinArgs::ToReg(
                        Reg::Rax,
                        Arg32::Reg(Reg::Rdx),
                    ),
                ),
                Op::Je(numbered("else_"@, n)),
            ];
            let first = lower(*a, env, depth, n, frame);
            let middle = seq![Op::Jmp(numbered("done_"@, n)), Op::Label(numbered("else_"@, n))];
            let second = lower(*b, env, depth, n + labels(*a), frame);
            let end = seq![Op::Label(numbered("done_"@, n))];
            lemma_if_head_free(c, env, n);
            lemma_lower_labels(*a, env, depth, n, frame);
            lemma_lower_labels(*b, env, depth, n + labels(*a), frame);
            lemma_labels_widen(first, n, n + labels(*a), counter, total);
            lemma_labels_widen(second, n + labels(*a), total, counter, total);
            assert(labels_between(middle, counter, total)) by {
                assert(local_prefix("else_"@) && counter < n <= total);
            }
            assert(labels_between(end, counter, total)) by {
                assert(local_prefix("done_"@) && counter < n <= total);
            }
            lemma_labels_concat(head, first, counter, total);
            lemma_labels_concat(head + first, middle, counter, total);
            lemma_labels_concat(head + first + middle, second, counter, total);
            lemma_labels_concat(head + first + middle + second, end, counter, total);
        },
        SeqTerm::ExternalCall(f, args, is_tail) => {
            lemma_call_free(f, args, env, depth, frame);
        },
        SeqTerm::InternalTailCall(f, args) => {
            lemma_call_free(f, args, env, depth, frame);
        },
        _ => {},
    }
}

/// What stands before the branches of an `if` defines no label.
pub proof fn lemma_if_head_free(c: ImmTerm, env: Seq<(Name, i32)>, n: nat)
    ensures
        label_free(
            seq![mov_reg(Reg::Rax, imm_arg(c, env))]
                + check_ops(Check::If, Reg::Rax) + seq![
                mov_reg(
                    Reg::Rdx,
                    Arg64::Unsigned(SNAKE_FLS),
                ),
                Op::Cmp(
                    BinArgs::ToReg(
                        Reg::Rax,
                        Arg32::Reg(Reg::Rdx),
                    ),
                ),
                Op::Je(numbered("else_"@, n)),
            ],
        ),
{
    let m1 = seq![mov_reg(Reg::Rax, imm_arg(c, env))];
    let tail = seq![
        mov_reg(
            Reg::Rdx,
            Arg64::Unsigned(SNAKE_FLS),
        ),
        Op::Cmp(
            BinArgs::ToReg(
                Reg::Rax,
                Arg32::Reg(Reg::Rdx),
            ),
        ),
        Op::Je(numbered("else_"@, n)),
    ];
    lemma_check_free(Check::If, Reg::Rax);
    lemma_free_concat(m1, check_ops(Check::If, Reg::Rax));
    lemma_free_concat(m1 + check_ops(Check::If, Reg::Rax), tail);
}

} // verus!
