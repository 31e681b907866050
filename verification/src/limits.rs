//! The limits of the machine, counted: whether a program is one that a text
//! can spell, how many names it binds, how many fresh names its sequential
//! form takes, and whether its frames and labels fit.

use crate::compile::{frame_bytes, funs_labels, labels, lemma_funs_labels_take, MAX_FRAME, slots};
use crate::driver::frames_fit;
use crate::scopes::{lemma_surface_parts, surface};
use crate::sequentializer::{arg_temps, args_temps, bindings_temps, decls_temps};
use crate::sequentializer::{lemma_args_temps_take, lemma_bindings_temps_take};
use crate::sequentializer::{lemma_decls_temps_take, temps};
use crate::syntax::{binding_terms, boxed_terms, decl_terms, Exp, fun_term, FunDecl, imm_terms};
use crate::syntax::{Prim, seq_decl_terms, seq_fun_term, SeqExp, SeqProg, terms};
use crate::uniquify::{args_binders, binders, bindings_binders, decls_binders};
use crate::uniquify::{lemma_args_binders_take, lemma_bindings_binders_take};
use crate::uniquify::lemma_decls_binders_take;
use vstd::prelude::*;

verus! {

/// Whether a count is the number that the specification names, or that
/// number is beyond 64 bits.
pub open spec fn counts(r: Option<u64>, n: nat) -> bool {
    match r {
        Some(k) => k == n,
        None => n > u64::MAX,
    }
}

/// The sum of two counts, which stand for `m` and `n`.
pub fn add_counts(a: Option<u64>, b: Option<u64>, m: Ghost<nat>, n: Ghost<nat>) -> (r: Option<u64>)
    requires
        counts(a, m@),
        counts(b, n@),
    ensures
        counts(r, m@ + n@),
{
    match (a, b) {
        (Some(x), Some(y)) => x.checked_add(y),
        _ => None,
    }
}

/// Whether an expression is one that a text can spell.
pub fn is_surface<Ann>(e: &Exp<Ann>) -> (r: bool)
    ensures
        r == surface(e@),
    decreases e,
{
    match e {
        Exp::Num(_, _) => true,
        Exp::Bool(_, _) => true,
        Exp::Var(_, _) => true,
        Exp::Prim(p, es, _) => {
            let ghost ts = boxed_terms(*es);
            assert(ts.len() == es.len());
            let a = es.len() == p.operand_count();
            let b = boxed_surface(es);
            proof {
                lemma_surface_parts(e@);
                if surface(e@) && !b {
                    let i = choose|i: int| 0 <= i < ts.len() && !surface(ts[i]);
                    assert(surface(ts[i]));
                }
            }
            a && b
        },
        Exp::Let { bindings, body, .. } => {
            let ghost ts = binding_terms(*bindings);
            let a = is_surface(body);
            let b = bindings_surface(bindings);
            proof {
                lemma_surface_parts(e@);
                if surface(e@) && !b {
                    let i = choose|i: int| 0 <= i < ts.len() && !surface(ts[i].1);
                    assert(surface(ts[i].1));
                }
            }
            a && b
        },
        Exp::If { cond, thn, els, .. } => is_surface(cond) && is_surface(thn) && is_surface(els),
        Exp::FunDefs { decls, body, .. } => {
            let ghost ts = decl_terms(*decls);
            let a = is_surface(body);
            let b = decls_surface(decls);
            proof {
                lemma_surface_parts(e@);
                if surface(e@) && !b {
                    let i = choose|i: int| 0 <= i < ts.len() && !surface(ts[i].body);
                    assert(surface(ts[i].body));
                }
            }
            a && b
        },
        Exp::Call(_, args, _) => {
            let ghost ts = terms(*args);
            let b = args_surface(args);
            proof {
                lemma_surface_parts(e@);
                if surface(e@) && !b {
                    let i = choose|i: int| 0 <= i < ts.len() && !surface(ts[i]);
                    assert(surface(ts[i]));
                }
            }
            b
        },
        Exp::InternalTailCall(_, _, _) => false,
        Exp::ExternalCall { .. } => false,
    }
}

pub fn boxed_surface<Ann>(es: &Vec<Box<Exp<Ann>>>) -> (r: bool)
    ensures
        r ==> forall|i: int|
            0 <= i < boxed_terms(*es).len() ==> surface(#[trigger] boxed_terms(*es)[i]),
        !r ==> exists|i: int| 0 <= i < boxed_terms(*es).len() && !surface(boxed_terms(*es)[i]),
    decreases es,
{
    let ghost ts = boxed_terms(*es);
    let mut i: usize = 0;
    while i < es.len()
        invariant
            i <= es.len(),
            ts == boxed_terms(*es),
            forall|j: int| 0 <= j < i ==> surface(#[trigger] ts[j]),
        decreases es.len() - i,
    {
        assert(ts[i as int] == es[i as int].term());
        if !is_surface(&*es[i]) {
            assert(0 <= i < ts.len() && !surface(ts[i as int]));
            return false;
        }
        i += 1;
    }
    true
}

pub fn args_surface<Ann>(es: &Vec<Exp<Ann>>) -> (r: bool)
    ensures
        r ==> forall|i: int| 0 <= i < terms(*es).len() ==> surface(#[trigger] terms(*es)[i]),
        !r ==> exists|i: int| 0 <= i < terms(*es).len() && !surface(terms(*es)[i]),
    decreases es,
{
    let ghost ts = terms(*es);
    let mut i: usize = 0;
    while i < es.len()
        invariant
            i <= es.len(),
            ts == terms(*es),
            forall|j: int| 0 <= j < i ==> surface(#[trigger] ts[j]),
        decreases es.len() - i,
    {
        assert(ts[i as int] == es[i as int].term());
        if !is_surface(&es[i]) {
            assert(0 <= i < ts.len() && !surface(ts[i as int]));
            return false;
        }
        i += 1;
    }
    true
}

pub fn bindings_surface<Ann>(bs: &Vec<(String, Exp<Ann>)>) -> (r: bool)
    ensures
        r ==> forall|i: int|
            0 <= i < binding_terms(*bs).len() ==> surface((#[trigger] binding_terms(*bs)[i]).1),
        !r ==> exists|i: int|
            0 <= i < binding_terms(*bs).len() && !surface(binding_terms(*bs)[i].1),
    decreases bs,
{
    let ghost ts = binding_terms(*bs);
    let mut i: usize = 0;
    while i < bs.len()
        invariant
            i <= bs.len(),
            ts == binding_terms(*bs),
            forall|j: int| 0 <= j < i ==> surface((#[trigger] ts[j]).1),
        decreases bs.len() - i,
    {
        assert(ts[i as int].1 == bs[i as int].1.term());
        if !is_surface(&bs[i].1) {
            assert(0 <= i < ts.len() && !surface(ts[i as int].1));
            return false;
        }
        i += 1;
    }
    true
}

pub fn decls_surface<Ann>(ds: &Vec<FunDecl<Exp<Ann>, Ann>>) -> (r: bool)
    ensures
        r ==> forall|i: int|
            0 <= i < decl_terms(*ds).len() ==> surface((#[trigger] decl_terms(*ds)[i]).body),
        !r ==> exists|i: int| 0 <= i < decl_terms(*ds).len() && !surface(decl_terms(*ds)[i].body),
    decreases ds,
{
    let ghost ts = decl_terms(*ds);
    let mut i: usize = 0;
    while i < ds.len()
        invariant
            i <= ds.len(),
            ts == decl_terms(*ds),
            forall|j: int| 0 <= j < i ==> surface((#[trigger] ts[j]).body),
        decreases ds.len() - i,
    {
        assert(ts[i as int].body == ds[i as int].body.term());
        if !is_surface(&ds[i].body) {
            assert(0 <= i < ts.len() && !surface(ts[i as int].body));
            return false;
        }
        i += 1;
    }
    true
}

/// The number of names that an expression binds.
pub fn count_binders<Ann>(e: &Exp<Ann>) -> (r: Option<u64>)
    ensures
        counts(r, binders(e@)),
    decreases e,
{
    match e {
        Exp::Num(_, _) => Some(0),
        Exp::Bool(_, _) => Some(0),
        Exp::Var(_, _) => Some(0),
        Exp::Prim(_, es, _) => count_boxed_binders(es),
        Exp::Let { bindings, body, .. } => add_counts(
            count_bindings_binders(bindings),
            count_binders(body),
            Ghost(bindings_binders(binding_terms(*bindings))),
            Ghost(binders(body@)),
        ),
        Exp::If { cond, thn, els, .. } => add_counts(
            add_counts(
                count_binders(cond),
                count_binders(thn),
                Ghost(binders(cond@)),
                Ghost(binders(thn@)),
            ),
            count_binders(els),
            Ghost((binders(cond@) + binders(thn@)) as nat),
            Ghost(binders(els@)),
        ),
        Exp::FunDefs { decls, body, .. } => {
            assert(decl_terms(*decls).len() == decls.len());
            add_counts(
                add_counts(
                    Some(decls.len() as u64),
                    count_decls_binders(decls),
                    Ghost(decls.len() as nat),
                    Ghost(decls_binders(decl_terms(*decls))),
                ),
                count_binders(body),
                Ghost((decls.len() + decls_binders(decl_terms(*decls))) as nat),
                Ghost(binders(body@)),
            )
        },
        Exp::Call(_, args, _) => count_args_binders(args),
        Exp::InternalTailCall(_, args, _) => count_args_binders(args),
        Exp::ExternalCall { args, .. } => count_args_binders(args),
    }
}

pub fn count_boxed_binders<Ann>(es: &Vec<Box<Exp<Ann>>>) -> (r: Option<u64>)
    ensures
        counts(r, args_binders(boxed_terms(*es))),
    decreases es,
{
    let ghost ts = boxed_terms(*es);
    let mut total: u64 = 0;
    let mut i: usize = 0;
    assert(ts.take(0).len() == 0);
    while i < es.len()
        invariant
            i <= es.len(),
            ts == boxed_terms(*es),
            total == args_binders(ts.take(i as int)),
        decreases es.len() - i,
    {
        proof {
            assert(ts.take(i + 1).drop_last() =~= ts.take(i as int));
            assert(ts.take(i + 1).last() == es[i as int].term());
            lemma_args_binders_take(ts, i + 1);
        }
        match add_counts(
            Some(total),
            count_binders(&*es[i]),
            Ghost(total as nat),
            Ghost(binders(es[i as int]@)),
        ) {
            Some(n) => {
                total = n;
            },
            None => {
                return None;
            },
        }
        i += 1;
    }
    assert(ts.take(es.len() as int) =~= ts);
    Some(total)
}

pub fn count_args_binders<Ann>(es: &Vec<Exp<Ann>>) -> (r: Option<u64>)
    ensures
        counts(r, args_binders(terms(*es))),
    decreases es,
{
    let ghost ts = terms(*es);
    let mut total: u64 = 0;
    let mut i: usize = 0;
    assert(ts.take(0).len() == 0);
    while i < es.len()
        invariant
            i <= es.len(),
            ts == terms(*es),
            total == args_binders(ts.take(i as int)),
        decreases es.len() - i,
    {
        proof {
            assert(ts.take(i + 1).drop_last() =~= ts.take(i as int));
            assert(ts.take(i + 1).last() == es[i as int].term());
            lemma_args_binders_take(ts, i + 1);
        }
        match add_counts(
            Some(total),
            count_binders(&es[i]),
            Ghost(total as nat),
            Ghost(binders(es[i as int]@)),
        ) {
            Some(n) => {
                total = n;
            },
            None => {
                return None;
            },
        }
        i += 1;
    }
    assert(ts.take(es.len() as int) =~= ts);
    Some(total)
}

pub fn count_bindings_binders<Ann>(bs: &Vec<(String, Exp<Ann>)>) -> (r: Option<u64>)
    ensures
        counts(r, bindings_binders(binding_terms(*bs))),
    decreases bs,
{
    let ghost ts = binding_terms(*bs);
    let mut total: u64 = 0;
    let mut i: usize = 0;
    assert(ts.take(0).len() == 0);
    while i < bs.len()
        invariant
            i <= bs.len(),
            ts == binding_terms(*bs),
            total == bindings_binders(ts.take(i as int)),
        decreases bs.len() - i,
    {
        proof {
            assert(ts.take(i + 1).drop_last() =~= ts.take(i as int));
            assert(ts.take(i + 1).last() == (bs[i as int].0@, bs[i as int].1.term()));
            lemma_bindings_binders_take(ts, i + 1);
        }
        match add_counts(
            add_counts(Some(total), Some(1), Ghost(total as nat), Ghost(1nat)),
            count_binders(&bs[i].1),
            Ghost((total + 1) as nat),
            Ghost(binders(bs[i as int].1@)),
        ) {
            Some(n) => {
                total = n;
            },
            None => {
                return None;
            },
        }
        i += 1;
    }
    assert(ts.take(bs.len() as int) =~= ts);
    Some(total)
}

pub fn count_decls_binders<Ann>(ds: &Vec<FunDecl<Exp<Ann>, Ann>>) -> (r: Option<u64>)
    ensures
        counts(r, decls_binders(decl_terms(*ds))),
    decreases ds,
{
    let ghost ts = decl_terms(*ds);
    let mut total: u64 = 0;
    let mut i: usize = 0;
    assert(ts.take(0).len() == 0);
    while i < ds.len()
        invariant
            i <= ds.len(),
            ts == decl_terms(*ds),
            total == decls_binders(ts.take(i as int)),
        decreases ds.len() - i,
    {
        proof {
            assert(ts.take(i + 1).drop_last() =~= ts.take(i as int));
            assert(ts.take(i + 1).last() == fun_term(ds[i as int]));
            lemma_decls_binders_take(ts, i + 1);
            assert(fun_term(ds[i as int]).params.len() == ds[i as int].parameters.len());
        }
        match add_counts(
            add_counts(
                Some(total),
                Some(ds[i].parameters.len() as u64),
                Ghost(total as nat),
                Ghost(ds[i as int].parameters.len() as nat),
            ),
            count_binders(&ds[i].body),
            Ghost((total + ds[i as int].parameters.len()) as nat),
            Ghost(binders(ds[i as int].body@)),
        ) {
            Some(n) => {
                total = n;
            },
            None => {
                return None;
            },
        }
        i += 1;
    }
    assert(ts.take(ds.len() as int) =~= ts);
    Some(total)
}

/// The number of fresh names that the sequential form of an expression
/// takes.
pub fn count_temps<Ann>(e: &Exp<Ann>) -> (r: Option<u64>)
    ensures
        counts(r, temps(e@)),
    decreases e, 0nat,
{
    match e {
        Exp::Num(_, _) => Some(0),
        Exp::Bool(_, _) => Some(0),
        Exp::Var(_, _) => Some(0),
        Exp::Prim(_, es, _) => count_boxed_temps(es),
        Exp::Let { bindings, body, .. } => add_counts(
            count_bindings_temps(bindings),
            count_temps(body),
            Ghost(bindings_temps(binding_terms(*bindings))),
            Ghost(temps(body@)),
        ),
        Exp::If { cond, thn, els, .. } => add_counts(
            add_counts(
                add_counts(Some(1), count_temps(cond), Ghost(1nat), Ghost(temps(cond@))),
                count_temps(thn),
                Ghost((1 + temps(cond@)) as nat),
                Ghost(temps(thn@)),
            ),
            count_temps(els),
            Ghost((1 + temps(cond@) + temps(thn@)) as nat),
            Ghost(temps(els@)),
        ),
        Exp::FunDefs { decls, body, .. } => add_counts(
            count_decls_temps(decls),
            count_temps(body),
            Ghost(decls_temps(decl_terms(*decls))),
            Ghost(temps(body@)),
        ),
        Exp::Call(_, args, _) => count_args_temps(args),
        Exp::InternalTailCall(_, args, _) => count_args_temps(args),
        Exp::ExternalCall { args, .. } => count_args_temps(args),
    }
}

/// The fresh names of one operand.
pub fn count_operand_temps<Ann>(e: &Exp<Ann>) -> (r: Option<u64>)
    ensures
        counts(r, arg_temps(e@)),
    decreases e, 1nat,
{
    match e {
        Exp::Num(_, _) => Some(0),
        Exp::Bool(_, _) => Some(0),
        Exp::Var(_, _) => Some(0),
        _ => add_counts(count_temps(e), Some(1), Ghost(temps(e@)), Ghost(1nat)),
    }
}

pub fn count_boxed_temps<Ann>(es: &Vec<Box<Exp<Ann>>>) -> (r: Option<u64>)
    ensures
        counts(r, args_temps(boxed_terms(*es))),
    decreases es,
{
    let ghost ts = boxed_terms(*es);
    let mut total: u64 = 0;
    let mut i: usize = 0;
    assert(ts.take(0).len() == 0);
    while i < es.len()
        invariant
            i <= es.len(),
            ts == boxed_terms(*es),
            total == args_temps(ts.take(i as int)),
        decreases es.len() - i,
    {
        proof {
            assert(ts.take(i + 1).drop_last() =~= ts.take(i as int));
            assert(ts.take(i + 1).last() == es[i as int].term());
            lemma_args_temps_take(ts, i + 1);
        }
        match add_counts(
            Some(total),
            count_operand_temps(&*es[i]),
            Ghost(total as nat),
            Ghost(arg_temps(es[i as int]@)),
        ) {
            Some(n) => {
                total = n;
            },
            None => {
                return None;
            },
        }
        i += 1;
    }
    assert(ts.take(es.len() as int) =~= ts);
    Some(total)
}

pub fn count_args_temps<Ann>(es: &Vec<Exp<Ann>>) -> (r: Option<u64>)
    ensures
        counts(r, args_temps(terms(*es))),
    decreases es,
{
    let ghost ts = terms(*es);
    let mut total: u64 = 0;
    let mut i: usize = 0;
    assert(ts.take(0).len() == 0);
    while i < es.len()
        invariant
            i <= es.len(),
            ts == terms(*es),
            total == args_temps(ts.take(i as int)),
        decreases es.len() - i,
    {
        proof {
            assert(ts.take(i + 1).drop_last() =~= ts.take(i as int));
            assert(ts.take(i + 1).last() == es[i as int].term());
            lemma_args_temps_take(ts, i + 1);
        }
        match add_counts(
            Some(total),
            count_operand_temps(&es[i]),
            Ghost(total as nat),
            Ghost(arg_temps(es[i as int]@)),
        ) {
            Some(n) => {
                total = n;
            },
            None => {
                return None;
            },
        }
        i += 1;
    }
    assert(ts.take(es.len() as int) =~= ts);
    Some(total)
}

pub fn count_bindings_temps<Ann>(bs: &Vec<(String, Exp<Ann>)>) -> (r: Option<u64>)
    ensures
        counts(r, bindings_temps(binding_terms(*bs))),
    decreases bs,
{
    let ghost ts = binding_terms(*bs);
    let mut total: u64 = 0;
    let mut i: usize = 0;
    assert(ts.take(0).len() == 0);
    while i < bs.len()
        invariant
            i <= bs.len(),
            ts == binding_terms(*bs),
            total == bindings_temps(ts.take(i as int)),
        decreases bs.len() - i,
    {
        proof {
            assert(ts.take(i + 1).drop_last() =~= ts.take(i as int));
            assert(ts.take(i + 1).last() == (bs[i as int].0@, bs[i as int].1.term()));
            lemma_bindings_temps_take(ts, i + 1);
        }
        match add_counts(
            Some(total),
            count_temps(&bs[i].1),
            Ghost(total as nat),
            Ghost(temps(bs[i as int].1@)),
        ) {
            Some(n) => {
                total = n;
            },
            None => {
                return None;
            },
        }
        i += 1;
    }
    assert(ts.take(bs.len() as int) =~= ts);
    Some(total)
}

pub fn count_decls_temps<Ann>(ds: &Vec<FunDecl<Exp<Ann>, Ann>>) -> (r: Option<u64>)
    ensures
        counts(r, decls_temps(decl_terms(*ds))),
    decreases ds,
{
    let ghost ts = decl_terms(*ds);
    let mut total: u64 = 0;
    let mut i: usize = 0;
    assert(ts.take(0).len() == 0);
    while i < ds.len()
        invariant
            i <= ds.len(),
            ts == decl_terms(*ds),
            total == decls_temps(ts.take(i as int)),
        decreases ds.len() - i,
    {
        proof {
            assert(ts.take(i + 1).drop_last() =~= ts.take(i as int));
            assert(ts.take(i + 1).last() == fun_term(ds[i as int]));
            lemma_decls_temps_take(ts, i + 1);
        }
        match add_counts(
            Some(total),
            count_temps(&ds[i].body),
            Ghost(total as nat),
            Ghost(temps(ds[i as int].body@)),
        ) {
            Some(n) => {
                total = n;
            },
            None => {
                return None;
            },
        }
        i += 1;
    }
    assert(ts.take(ds.len() as int) =~= ts);
    Some(total)
}

/// The larger of two counts, which stand for `m` and `n`.
pub fn max_counts(a: Option<u64>, b: Option<u64>, m: Ghost<nat>, n: Ghost<nat>) -> (r: Option<u64>)
    requires
        counts(a, m@),
        counts(b, n@),
    ensures
        counts(
            r,
            if m@ >= n@ {
                m@
            } else {
                n@
            },
        ),
{
    match (a, b) {
        (Some(x), Some(y)) => if x >= y {
            Some(x)
        } else {
            Some(y)
        },
        _ => None,
    }
}

/// The number of local slots that an expression needs.
pub fn checked_slots(e: &SeqExp<()>) -> (r: Option<u64>)
    ensures
        counts(r, slots(e@)),
    decreases e,
{
    match e {
        SeqExp::Let { bound_exp, body, .. } => max_counts(
            checked_slots(bound_exp),
            add_counts(Some(1), checked_slots(body), Ghost(1nat), Ghost(slots(body@))),
            Ghost(slots(bound_exp@)),
            Ghost((1 + slots(body@)) as nat),
        ),
        SeqExp::If { thn, els, .. } => max_counts(
            checked_slots(thn),
            checked_slots(els),
            Ghost(slots(thn@)),
            Ghost(slots(els@)),
        ),
        SeqExp::ExternalCall { args, .. } => {
            assert(imm_terms(args@).len() == args.len());
            Some(args.len() as u64)
        },
        SeqExp::InternalTailCall(_, args, _) => {
            assert(imm_terms(args@).len() == args.len());
            Some(args.len() as u64)
        },
        _ => Some(0),
    }
}

/// The number of labels that the code of an expression takes.
pub fn count_labels(e: &SeqExp<()>) -> (r: Option<u64>)
    ensures
        counts(r, labels(e@)),
    decreases e,
{
    match e {
        SeqExp::Prim(p, _, _) => match p {
            Prim::Eq | Prim::Neq => Some(1),
            _ => Some(0),
        },
        SeqExp::Let { bound_exp, body, .. } => add_counts(
            count_labels(bound_exp),
            count_labels(body),
            Ghost(labels(bound_exp@)),
            Ghost(labels(body@)),
        ),
        SeqExp::If { thn, els, .. } => add_counts(
            add_counts(Some(1), count_labels(thn), Ghost(1nat), Ghost(labels(thn@))),
            count_labels(els),
            Ghost((1 + labels(thn@)) as nat),
            Ghost(labels(els@)),
        ),
        _ => Some(0),
    }
}

/// Whether the frame of a function with this body is within the largest
/// frame.
pub fn frame_fits(e: &SeqExp<()>) -> (r: bool)
    ensures
        r == (frame_bytes(slots(e@)) <= MAX_FRAME),
{
    match checked_slots(e) {
        Some(n) => n <= 0x03ff_ffff,
        None => false,
    }
}

/// Whether a program in sequential form is within the limits of the code
/// generator.
pub fn program_fits(p: &SeqProg<()>) -> (r: bool)
    ensures
        r == frames_fit(p@),
{
    let ghost ds = seq_decl_terms(p.funs);
    let mut total: u64 = 0;
    let mut i: usize = 0;
    assert(ds.take(0).len() == 0);
    while i < p.funs.len()
        invariant
            i <= p.funs.len(),
            ds == seq_decl_terms(p.funs),
            ds.len() == p.funs.len(),
            total == funs_labels(ds.take(i as int)),
            forall|k: int|
                0 <= k < i ==> frame_bytes(slots((#[trigger] ds[k]).body)) <= MAX_FRAME && 8
                    * ds[k].params.len() + 8 <= MAX_FRAME,
        decreases p.funs.len() - i,
    {
        proof {
            assert(ds.take(i + 1).drop_last() =~= ds.take(i as int));
            assert(ds.take(i + 1).last() == ds[i as int]);
            assert(ds[i as int] == seq_fun_term(p.funs[i as int]));
            assert(ds[i as int].params.len() == p.funs[i as int].parameters.len());
            lemma_funs_labels_take(ds, i + 1);
        }
        if !frame_fits(&p.funs[i].body) || p.funs[i].parameters.len() > 0x03ff_ffff {
            return false;
        }
        match add_counts(
            Some(total),
            count_labels(&p.funs[i].body),
            Ghost(total as nat),
            Ghost(labels(p.funs[i as int].body@)),
        ) {
            Some(n) => {
                total = n;
            },
            None => {
                return false;
            },
        }
        i += 1;
    }
    assert(ds.take(p.funs.len() as int) =~= ds);
    if !frame_fits(&p.main) {
        return false;
    }
    match add_counts(
        Some(total),
        count_labels(&p.main),
        Ghost(total as nat),
        Ghost(labels(p.main@)),
    ) {
        Some(n) => n <= 0xffff_ffff,
        None => false,
    }
}

} // verus!
