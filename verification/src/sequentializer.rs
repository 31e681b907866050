//! A-normalization: every operand of a primitive or a call becomes an
//! immediate, every other sub-expression is bound to a fresh name, and calls
//! in tail position are marked.

use crate::names::{numbered, numbered_name};
use crate::syntax::{binding_terms, boxed_terms, copy_names, decl_terms, Exp, fun_term, FunDecl};
use crate::syntax::{FunTerm, imm_terms, ImmExp, ImmTerm, Name, seq_decl_terms, seq_fun_term};
use crate::syntax::{SeqExp, SeqFunTerm, SeqProg, SeqProgTerm, SeqTerm, Term, terms};
use vstd::prelude::*;

verus! {

/// The immediate that an expression is, where it is one.
pub open spec fn imm_of(t: Term) -> Option<ImmTerm> {
    match t {
        Term::Num(n) => Some(ImmTerm::Num(n)),
        Term::Bool(b) => Some(ImmTerm::Bool(b)),
        Term::Var(x) => Some(ImmTerm::Var(x)),
        _ => None,
    }
}

/// The number of fresh names that the sequential form of an expression takes.
pub open spec fn temps(t: Term) -> nat
    decreases t,
{
    match t {
        Term::Num(_) | Term::Bool(_) | Term::Var(_) => 0,
        Term::Prim(_, args) => args_temps(args),
        Term::Let(bs, body) => bindings_temps(bs) + temps(*body),
        Term::If(c, a, b) => 1 + temps(*c) + temps(*a) + temps(*b),
        Term::FunDefs(ds, body) => decls_temps(ds) + temps(*body),
        Term::Call(_, args) => args_temps(args),
        Term::InternalTailCall(_, args) => args_temps(args),
        Term::ExternalCall(_, args, _) => args_temps(args),
    }
}

/// The fresh names of a list of operands: those of each, and one more for
/// each that is no immediate.
pub open spec fn args_temps(args: Seq<Term>) -> nat
    decreases args,
{
    if args.len() == 0 {
        0
    } else {
        args_temps(args.drop_last()) + (if imm_of(args.last()) is Some {
            0
        } else {
            temps(args.last()) + 1
        })
    }
}

/// The fresh names of one operand.
pub open spec fn arg_temps(t: Term) -> nat {
    if imm_of(t) is Some {
        0
    } else {
        temps(t) + 1
    }
}

pub open spec fn bindings_temps(bs: Seq<(Name, Term)>) -> nat
    decreases bs,
{
    if bs.len() == 0 {
        0
    } else {
        bindings_temps(bs.drop_last()) + temps(bs.last().1)
    }
}

pub open spec fn decls_temps(ds: Seq<FunTerm>) -> nat
    decreases ds,
{
    if ds.len() == 0 {
        0
    } else {
        decls_temps(ds.drop_last()) + temps(ds.last().body)
    }
}

/// The name of the temporary with this number.
pub open spec fn temp_name(n: nat) -> Name {
    numbered("#var_"@, n)
}

/// The name that holds the condition of the `if` with this number.
pub open spec fn cond_name(n: nat) -> Name {
    numbered("#if_"@, n)
}

/// Bindings nested into one expression: the first is outermost, `inner` is
/// the body of the last.
pub open spec fn nest(bs: Seq<(Name, SeqTerm)>, inner: SeqTerm) -> SeqTerm
    decreases bs.len(),
{
    if bs.len() == 0 {
        inner
    } else {
        nest(bs.drop_last(), SeqTerm::Let(bs.last().0, Box::new(bs.last().1), Box::new(inner)))
    }
}

/// The sequential form of an expression. Fresh names are numbered from
/// `counter + 1`; `tail` says whether the expression stands in tail position.
pub open spec fn seq_term(t: Term, counter: nat, tail: bool) -> SeqTerm
    decreases t,
{
    match t {
        Term::Num(n) => SeqTerm::Imm(ImmTerm::Num(n)),
        Term::Bool(b) => SeqTerm::Imm(ImmTerm::Bool(b)),
        Term::Var(x) => SeqTerm::Imm(ImmTerm::Var(x)),
        Term::Prim(p, args) => nest(
            arg_bindings(args, counter),
            SeqTerm::Prim(p, operands(args, counter)),
        ),
        Term::Let(bs, body) => nest(
            let_bindings(bs, counter),
            seq_term(*body, counter + bindings_temps(bs), tail),
        ),
        Term::If(c, a, b) => {
            let n = counter + 1;
            SeqTerm::Let(
                cond_name(n),
                Box::new(seq_term(*c, n, false)),
                Box::new(
                    SeqTerm::If(
                        ImmTerm::Var(cond_name(n)),
                        Box::new(seq_term(*a, n + temps(*c), tail)),
                        Box::new(seq_term(*b, n + temps(*c) + temps(*a), tail)),
                    ),
                ),
            )
        },
        Term::FunDefs(ds, body) => SeqTerm::FunDefs(
            seq_funs(ds, counter),
            Box::new(seq_term(*body, counter + decls_temps(ds), tail)),
        ),
        Term::Call(f, args) => nest(
            arg_bindings(args, counter),
            SeqTerm::ExternalCall(f, operands(args, counter), tail),
        ),
        Term::InternalTailCall(f, args) => nest(
            arg_bindings(args, counter),
            SeqTerm::InternalTailCall(f, operands(args, counter)),
        ),
        Term::ExternalCall(f, args, _) => nest(
            arg_bindings(args, counter),
            SeqTerm::ExternalCall(f, operands(args, counter), tail),
        ),
    }
}

/// The operand that stands for an argument: itself where it is an immediate,
/// else the temporary numbered after the fresh names of its own sequential
/// form.
pub open spec fn operand(t: Term, counter: nat) -> ImmTerm {
    match imm_of(t) {
        Some(i) => i,
        None => ImmTerm::Var(temp_name(counter + temps(t) + 1)),
    }
}

/// The operands of a list of arguments, numbered from left to right.
pub open spec fn operands(args: Seq<Term>, counter: nat) -> Seq<ImmTerm>
    decreases args,
{
    if args.len() == 0 {
        Seq::empty()
    } else {
        operands(args.drop_last(), counter).push(
            operand(args.last(), counter + args_temps(args.drop_last())),
        )
    }
}

/// The bindings of the arguments that are no immediates, from left to right.
pub open spec fn arg_bindings(args: Seq<Term>, counter: nat) -> Seq<(Name, SeqTerm)>
    decreases args,
{
    if args.len() == 0 {
        Seq::empty()
    } else {
        let before = arg_bindings(args.drop_last(), counter);
        let c = counter + args_temps(args.drop_last());
        if imm_of(args.last()) is Some {
            before
        } else {
            before.push((temp_name(c + temps(args.last()) + 1), seq_term(args.last(), c, false)))
        }
    }
}

/// The bindings of a `let`, each with the sequential form of its value.
pub open spec fn let_bindings(bs: Seq<(Name, Term)>, counter: nat) -> Seq<(Name, SeqTerm)>
    decreases bs,
{
    if bs.len() == 0 {
        Seq::empty()
    } else {
        let_bindings(bs.drop_last(), counter).push(
            (
                bs.last().0,
                seq_term(bs.last().1, counter + bindings_temps(bs.drop_last()), false),
            ),
        )
    }
}

/// The declarations of a group, each with the sequential form of its body,
/// which stands in tail position.
pub open spec fn seq_funs(ds: Seq<FunTerm>, counter: nat) -> Seq<SeqFunTerm>
    decreases ds,
{
    if ds.len() == 0 {
        Seq::empty()
    } else {
        seq_funs(ds.drop_last(), counter).push(
            SeqFunTerm {
                name: ds.last().name,
                params: ds.last().params,
                body: seq_term(ds.last().body, counter + decls_temps(ds.drop_last()), true),
            },
        )
    }
}

/// The sequential form of a program: the functions first, then the main
/// expression, with one numbering of fresh names.
pub open spec fn seq_prog_term(ds: Seq<FunTerm>, main: Term) -> SeqProgTerm {
    SeqProgTerm { funs: seq_funs(ds, 0), main: seq_term(main, decls_temps(ds), true) }
}

/// The bindings that a vector holds.
pub open spec fn seq_bindings_of(v: Seq<(String, SeqExp<()>)>) -> Seq<(Name, SeqTerm)> {
    Seq::new(v.len(), |i: int| (v[i].0@, v[i].1.term()))
}

/// The immediate that an expression is, where it is one.
pub fn as_imm<Span>(e: &Exp<Span>) -> (r: Option<ImmExp>)
    ensures
        match r {
            Some(i) => imm_of(e@) == Some(i@),
            None => imm_of(e@) is None,
        },
{
    match e {
        Exp::Num(n, _) => Some(ImmExp::Num(*n)),
        Exp::Bool(b, _) => Some(ImmExp::Bool(*b)),
        Exp::Var(x, _) => Some(ImmExp::Var(x.clone())),
        _ => None,
    }
}

/// Nests bindings around `body`, the first outermost.
pub fn generate_nested_let(bindings: Vec<(String, SeqExp<()>)>, body: SeqExp<()>) -> (r: SeqExp<()>)
    ensures
        r@ == nest(seq_bindings_of(bindings@), body@),
{
    let mut bindings = bindings;
    let mut acc = body;
    let ghost all = seq_bindings_of(bindings@);
    while bindings.len() > 0
        invariant
            nest(seq_bindings_of(bindings@), acc@) == nest(all, body@),
        decreases bindings.len(),
    {
        let ghost before = seq_bindings_of(bindings@);
        let last = bindings.pop();
        match last {
            Some((var, bound)) => {
                proof {
                    assert(before.drop_last() =~= seq_bindings_of(bindings@));
                    assert(before.last() == (var@, bound.term()));
                }
                acc = SeqExp::Let { var, bound_exp: Box::new(bound), body: Box::new(acc), ann: () };
            },
            None => {},
        }
    }
    acc
}

/// One argument made an operand: where it is no immediate, its sequential
/// form is bound to a fresh temporary.
pub fn seq_operand<Span>(
    e: &Exp<Span>,
    counter: &mut u32,
    imms: &mut Vec<ImmExp>,
    bindings: &mut Vec<(String, SeqExp<()>)>,
)
    requires
        *old(counter) + arg_temps(e@) <= u32::MAX,
    ensures
        *final(counter) == *old(counter) + arg_temps(e@),
        imm_terms(final(imms)@) == imm_terms(old(imms)@).push(operand(e@, *old(counter) as nat)),
        seq_bindings_of(final(bindings)@) == (if imm_of(e@) is Some {
            seq_bindings_of(old(bindings)@)
        } else {
            seq_bindings_of(old(bindings)@).push(
                (
                    temp_name((*old(counter) + temps(e@) + 1) as nat),
                    seq_term(e@, *old(counter) as nat, false),
                ),
            )
        }),
    decreases e, 1nat,
{
    match as_imm(e) {
        Some(i) => {
            imms.push(i);
            assert(imm_terms(imms@) =~= imm_terms(old(imms)@).push(i@));
        },
        None => {
            let bound = seq_in(e, counter, false);
            *counter = *counter + 1;
            let var = numbered_name("#var_", *counter);
            imms.push(ImmExp::Var(var.clone()));
            bindings.push((var, bound));
            assert(imm_terms(imms@) =~= imm_terms(old(imms)@).push(ImmTerm::Var(var@)));
            assert(seq_bindings_of(bindings@) =~= seq_bindings_of(old(bindings)@).push(
                (var@, bound.term()),
            ));
        },
    }
}

/// The operands and bindings of a list of arguments.
pub fn parse_param_exps<Span>(params: &Vec<Exp<Span>>, counter: &mut u32) -> (r: (
    Vec<ImmExp>,
    Vec<(String, SeqExp<()>)>,
))
    requires
        *old(counter) + args_temps(terms(*params)) <= u32::MAX,
    ensures
        *final(counter) == *old(counter) + args_temps(terms(*params)),
        imm_terms(r.0@) == operands(terms(*params), *old(counter) as nat),
        seq_bindings_of(r.1@) == arg_bindings(terms(*params), *old(counter) as nat),
    decreases params,
{
    let mut imms: Vec<ImmExp> = Vec::new();
    let mut bindings: Vec<(String, SeqExp<()>)> = Vec::new();
    let ghost ts = terms(*params);
    let ghost start = *counter as nat;
    let mut i: usize = 0;
    assert(ts.take(0).len() == 0);
    assert(imm_terms(imms@) =~= Seq::<ImmTerm>::empty());
    assert(seq_bindings_of(bindings@) =~= Seq::<(Name, SeqTerm)>::empty());
    while i < params.len()
        invariant
            i <= params.len(),
            ts == terms(*params),
            start + args_temps(ts) <= u32::MAX,
            *counter == start + args_temps(ts.take(i as int)),
            imm_terms(imms@) == operands(ts.take(i as int), start),
            seq_bindings_of(bindings@) == arg_bindings(ts.take(i as int), start),
        decreases params.len() - i,
    {
        proof {
            assert(ts.take(i + 1).drop_last() =~= ts.take(i as int));
            assert(ts.take(i + 1).last() == params[i as int].term());
            lemma_args_temps_take(ts, i + 1);
        }
        seq_operand(&params[i], counter, &mut imms, &mut bindings);
        i += 1;
    }
    assert(ts.take(params.len() as int) =~= ts);
    (imms, bindings)
}

/// The operands and bindings of the operands of a primitive.
pub fn parse_boxed_exps<Span>(params: &Vec<Box<Exp<Span>>>, counter: &mut u32) -> (r: (
    Vec<ImmExp>,
    Vec<(String, SeqExp<()>)>,
))
    requires
        *old(counter) + args_temps(boxed_terms(*params)) <= u32::MAX,
    ensures
        *final(counter) == *old(counter) + args_temps(boxed_terms(*params)),
        imm_terms(r.0@) == operands(boxed_terms(*params), *old(counter) as nat),
        seq_bindings_of(r.1@) == arg_bindings(boxed_terms(*params), *old(counter) as nat),
    decreases params,
{
    let mut imms: Vec<ImmExp> = Vec::new();
    let mut bindings: Vec<(String, SeqExp<()>)> = Vec::new();
    let ghost ts = boxed_terms(*params);
    let ghost start = *counter as nat;
    let mut i: usize = 0;
    assert(ts.take(0).len() == 0);
    assert(imm_terms(imms@) =~= Seq::<ImmTerm>::empty());
    assert(seq_bindings_of(bindings@) =~= Seq::<(Name, SeqTerm)>::empty());
    while i < params.len()
        invariant
            i <= params.len(),
            ts == boxed_terms(*params),
            start + args_temps(ts) <= u32::MAX,
            *counter == start + args_temps(ts.take(i as int)),
            imm_terms(imms@) == operands(ts.take(i as int), start),
            seq_bindings_of(bindings@) == arg_bindings(ts.take(i as int), start),
        decreases params.len() - i,
    {
        proof {
            assert(ts.take(i + 1).drop_last() =~= ts.take(i as int));
            assert(ts.take(i + 1).last() == params[i as int].term());
            lemma_args_temps_take(ts, i + 1);
        }
        seq_operand(&*params[i], counter, &mut imms, &mut bindings);
        i += 1;
    }
    assert(ts.take(params.len() as int) =~= ts);
    (imms, bindings)
}

/// The fresh names of the first arguments are among those of all of them.
pub proof fn lemma_args_temps_take(ts: Seq<Term>, n: int)
    requires
        0 <= n <= ts.len(),
    ensures
        args_temps(ts.take(n)) <= args_temps(ts),
    decreases ts.len(),
{
    if n < ts.len() {
        lemma_args_temps_take(ts.drop_last(), n);
        assert(ts.drop_last().take(n) =~= ts.take(n));
    } else {
        assert(ts.take(n) =~= ts);
    }
}

pub proof fn lemma_bindings_temps_take(bs: Seq<(Name, Term)>, n: int)
    requires
        0 <= n <= bs.len(),
    ensures
        bindings_temps(bs.take(n)) <= bindings_temps(bs),
    decreases bs.len(),
{
    if n < bs.len() {
        lemma_bindings_temps_take(bs.drop_last(), n);
        assert(bs.drop_last().take(n) =~= bs.take(n));
    } else {
        assert(bs.take(n) =~= bs);
    }
}

pub proof fn lemma_decls_temps_take(ds: Seq<FunTerm>, n: int)
    requires
        0 <= n <= ds.len(),
    ensures
        decls_temps(ds.take(n)) <= decls_temps(ds),
    decreases ds.len(),
{
    if n < ds.len() {
        lemma_decls_temps_take(ds.drop_last(), n);
        assert(ds.drop_last().take(n) =~= ds.take(n));
    } else {
        assert(ds.take(n) =~= ds);
    }
}

/// The bindings of a `let` in sequential form.
pub fn seq_let_bindings<Span>(bs: &Vec<(String, Exp<Span>)>, counter: &mut u32) -> (r: Vec<
    (String, SeqExp<()>),
>)
    requires
        *old(counter) + bindings_temps(binding_terms(*bs)) <= u32::MAX,
    ensures
        *final(counter) == *old(counter) + bindings_temps(binding_terms(*bs)),
        seq_bindings_of(r@) == let_bindings(binding_terms(*bs), *old(counter) as nat),
    decreases bs,
{
    let mut out: Vec<(String, SeqExp<()>)> = Vec::new();
    let ghost ts = binding_terms(*bs);
    let ghost start = *counter as nat;
    let mut i: usize = 0;
    assert(ts.take(0).len() == 0);
    assert(seq_bindings_of(out@) =~= Seq::<(Name, SeqTerm)>::empty());
    while i < bs.len()
        invariant
            i <= bs.len(),
            ts == binding_terms(*bs),
            start + bindings_temps(ts) <= u32::MAX,
            *counter == start + bindings_temps(ts.take(i as int)),
            seq_bindings_of(out@) == let_bindings(ts.take(i as int), start),
        decreases bs.len() - i,
    {
        proof {
            assert(ts.take(i + 1).drop_last() =~= ts.take(i as int));
            assert(ts.take(i + 1).last() == (bs[i as int].0@, bs[i as int].1.term()));
            lemma_bindings_temps_take(ts, i + 1);
        }
        let ghost before = seq_bindings_of(out@);
        let bound = seq_in(&bs[i].1, counter, false);
        out.push((bs[i].0.clone(), bound));
        assert(seq_bindings_of(out@) =~= before.push((bs[i as int].0@, bound.term())));
        i += 1;
    }
    assert(ts.take(bs.len() as int) =~= ts);
    out
}

/// The declarations of a group in sequential form.
pub fn seq_decls<Span>(ds: &Vec<FunDecl<Exp<Span>, Span>>, counter: &mut u32) -> (r: Vec<
    FunDecl<SeqExp<()>, ()>,
>)
    requires
        *old(counter) + decls_temps(decl_terms(*ds)) <= u32::MAX,
    ensures
        *final(counter) == *old(counter) + decls_temps(decl_terms(*ds)),
        seq_decl_terms(r) == seq_funs(decl_terms(*ds), *old(counter) as nat),
    decreases ds,
{
    let mut out: Vec<FunDecl<SeqExp<()>, ()>> = Vec::new();
    let ghost ts = decl_terms(*ds);
    let ghost start = *counter as nat;
    let mut i: usize = 0;
    assert(ts.take(0).len() == 0);
    assert(seq_decl_terms(out) =~= Seq::<SeqFunTerm>::empty());
    while i < ds.len()
        invariant
            i <= ds.len(),
            ts == decl_terms(*ds),
            start + decls_temps(ts) <= u32::MAX,
            *counter == start + decls_temps(ts.take(i as int)),
            seq_decl_terms(out) == seq_funs(ts.take(i as int), start),
        decreases ds.len() - i,
    {
        proof {
            assert(ts.take(i + 1).drop_last() =~= ts.take(i as int));
            assert(ts.take(i + 1).last() == fun_term(ds[i as int]));
            lemma_decls_temps_take(ts, i + 1);
        }
        let ghost before = seq_decl_terms(out);
        let body = seq_in(&ds[i].body, counter, true);
        let d = FunDecl {
            name: ds[i].name.clone(),
            parameters: copy_names(&ds[i].parameters),
            body,
            ann: (),
        };
        let ghost dt = seq_fun_term(d);
        out.push(d);
        assert(seq_decl_terms(out) =~= before.push(dt));
        i += 1;
    }
    assert(ts.take(ds.len() as int) =~= ts);
    out
}

/// The sequential form of an expression that stands in tail position or not.
pub fn seq_in<Span>(e: &Exp<Span>, counter: &mut u32, tail: bool) -> (r: SeqExp<()>)
    requires
        *old(counter) + temps(e@) <= u32::MAX,
    ensures
        r@ == seq_term(e@, *old(counter) as nat, tail),
        *final(counter) == *old(counter) + temps(e@),
    decreases e, 0nat,
{
    match e {
        Exp::Bool(b, _) => SeqExp::Imm(ImmExp::Bool(*b), ()),
        Exp::Num(i, _) => SeqExp::Imm(ImmExp::Num(*i), ()),
        Exp::Var(s, _) => SeqExp::Imm(ImmExp::Var(s.clone()), ()),
        Exp::Prim(p, exps, _) => {
            let (imm_params, let_bindings) = parse_boxed_exps(exps, counter);
            generate_nested_let(let_bindings, SeqExp::Prim(*p, imm_params, ()))
        },
        Exp::Let { bindings, body, .. } => {
            let bound = seq_let_bindings(bindings, counter);
            let inner = seq_in(body, counter, tail);
            generate_nested_let(bound, inner)
        },
        Exp::If { cond, thn, els, .. } => {
            *counter = *counter + 1;
            let var_name = numbered_name("#if_", *counter);
            let bound = seq_in(cond, counter, false);
            let first = seq_in(thn, counter, tail);
            let second = seq_in(els, counter, tail);
            let branch = SeqExp::If {
                cond: ImmExp::Var(var_name.clone()),
                thn: Box::new(first),
                els: Box::new(second),
                ann: (),
            };
            assert(branch@ is If);
            SeqExp::Let {
                var: var_name,
                bound_exp: Box::new(bound),
                body: Box::new(branch),
                ann: (),
            }
        },
        Exp::FunDefs { decls, body, .. } => {
            let seq_decls = seq_decls(decls, counter);
            let inner = seq_in(body, counter, tail);
            SeqExp::FunDefs { decls: seq_decls, body: Box::new(inner), ann: () }
        },
        Exp::Call(func, params, _) => {
            let (imm_params, let_bindings) = parse_param_exps(params, counter);
            generate_nested_let(
                let_bindings,
                SeqExp::ExternalCall {
                    fun_name: func.clone(),
                    args: imm_params,
                    is_tail: tail,
                    ann: (),
                },
            )
        },
        Exp::InternalTailCall(func, params, _) => {
            let (imm_params, let_bindings) = parse_param_exps(params, counter);
            generate_nested_let(
                let_bindings,
                SeqExp::InternalTailCall(func.clone(), imm_params, ()),
            )
        },
        Exp::ExternalCall { fun_name, args, .. } => {
            let (imm_params, let_bindings) = parse_param_exps(args, counter);
            generate_nested_let(
                let_bindings,
                SeqExp::ExternalCall {
                    fun_name: fun_name.clone(),
                    args: imm_params,
                    is_tail: tail,
                    ann: (),
                },
            )
        },
    }
}

/// The sequential form of the body of a function: the expression stands in
/// tail position.
pub fn seq<Span>(e: &Exp<Span>, counter: &mut u32) -> (r: SeqExp<()>)
    requires
        *old(counter) + temps(e@) <= u32::MAX,
    ensures
        r@ == seq_term(e@, *old(counter) as nat, true),
        *final(counter) == *old(counter) + temps(e@),
{
    seq_in(e, counter, true)
}

/// The sequential form of a lifted program.
pub fn seq_prog(decls: &Vec<FunDecl<Exp<()>, ()>>, p: &Exp<()>) -> (r: SeqProg<()>)
    requires
        decls_temps(decl_terms(*decls)) + temps(p@) <= u32::MAX,
    ensures
        r@ == seq_prog_term(decl_terms(*decls), p@),
{
    let mut counter: u32 = 0;
    let funs = seq_decls(decls, &mut counter);
    let main = seq(p, &mut counter);
    SeqProg { funs, main, ann: () }
}

} // verus!
