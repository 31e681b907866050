//! Lambda-lifting: every local function becomes a top-level one that takes
//! the variables it captures as extra parameters, and every call passes them.
//!
//! Policy: every local function is lifted, whether it captures anything or
//! not, so the lifted main expression holds no function definition and every
//! call in the result is a call of a top-level function.

use crate::names::{find_last, find_name, has_name, index_of, keys, table_of};
use crate::syntax::{binding_terms, boxed_terms, copy_names, decl_terms, Exp, fun_term, FunDecl};
use crate::syntax::{FunTerm, Name, names_of, Term, terms};
use crate::uniquify::{binders, renaming_of, uniquify, uniquify_term};
use vstd::prelude::*;

verus! {

/// For each function in scope, the variables that it captures, in the order
/// in which its calls pass them.
pub type FunTable = Seq<(Name, Seq<Name>)>;

/// The table that a vector of pairs holds.
pub open spec fn fun_table_of(v: Seq<(String, Vec<String>)>) -> FunTable {
    Seq::new(v.len(), |i: int| (v[i].0@, names_of(v[i].1@)))
}

/// The variables that the newest function named `f` captures; none where no
/// function of that name is in scope.
pub open spec fn extras(funs: FunTable, f: Name) -> Seq<Name> {
    let i = index_of(keys(funs), f);
    if i >= 0 {
        funs[i].1
    } else {
        Seq::empty()
    }
}

/// `acc` with `x` added at its end, where `x` is in `scope` and not yet in
/// `acc`.
pub open spec fn add_name(acc: Seq<Name>, x: Name, scope: Seq<Name>) -> Seq<Name> {
    if has_name(scope, x) && !has_name(acc, x) {
        acc.push(x)
    } else {
        acc
    }
}

pub open spec fn add_names(acc: Seq<Name>, xs: Seq<Name>, scope: Seq<Name>) -> Seq<Name>
    decreases xs.len(),
{
    if xs.len() == 0 {
        acc
    } else {
        add_name(add_names(acc, xs.drop_last(), scope), xs.last(), scope)
    }
}

/// The variables of `scope` that the expression reads, itself or through the
/// functions it calls, added to `acc` in the order in which they are first
/// met.
pub open spec fn captured(t: Term, scope: Seq<Name>, funs: FunTable, acc: Seq<Name>) -> Seq<Name>
    decreases t,
{
    match t {
        Term::Num(_) | Term::Bool(_) => acc,
        Term::Var(x) => add_name(acc, x, scope),
        Term::Prim(_, args) => captured_args(args, scope, funs, acc),
        Term::Let(bs, body) => captured(
            *body,
            scope,
            funs,
            captured_bindings(bs, scope, funs, acc),
        ),
        Term::If(c, a, b) => captured(
            *b,
            scope,
            funs,
            captured(*a, scope, funs, captured(*c, scope, funs, acc)),
        ),
        Term::FunDefs(ds, body) => captured(*body, scope, funs, captured_decls(ds, scope, funs, acc)),
        Term::Call(f, args) => add_names(
            captured_args(args, scope, funs, acc),
            extras(funs, f),
            scope,
        ),
        Term::InternalTailCall(_, args) => captured_args(args, scope, funs, acc),
        Term::ExternalCall(_, args, _) => captured_args(args, scope, funs, acc),
    }
}

pub open spec fn captured_args(args: Seq<Term>, scope: Seq<Name>, funs: FunTable, acc: Seq<Name>) -> Seq<
    Name,
>
    decreases args,
{
    if args.len() == 0 {
        acc
    } else {
        captured(args.last(), scope, funs, captured_args(args.drop_last(), scope, funs, acc))
    }
}

pub open spec fn captured_bindings(
    bs: Seq<(Name, Term)>,
    scope: Seq<Name>,
    funs: FunTable,
    acc: Seq<Name>,
) -> Seq<Name>
    decreases bs,
{
    if bs.len() == 0 {
        acc
    } else {
        captured(bs.last().1, scope, funs, captured_bindings(bs.drop_last(), scope, funs, acc))
    }
}

/// The variables of `scope` that the bodies of a group read.
pub open spec fn captured_decls(ds: Seq<FunTerm>, scope: Seq<Name>, funs: FunTable, acc: Seq<Name>) -> Seq<
    Name,
>
    decreases ds,
{
    if ds.len() == 0 {
        acc
    } else {
        captured(ds.last().body, scope, funs, captured_decls(ds.drop_last(), scope, funs, acc))
    }
}

/// The names as variables.
pub open spec fn vars(xs: Seq<Name>) -> Seq<Term> {
    Seq::new(xs.len(), |i: int| Term::Var(xs[i]))
}

/// The names that the bindings of a `let` bind.
pub open spec fn bound_names(bs: Seq<(Name, Term)>) -> Seq<Name> {
    Seq::new(bs.len(), |i: int| bs[i].0)
}

/// A table extended by the functions of a group, each with the same captured
/// variables.
pub open spec fn with_group(funs: FunTable, ds: Seq<FunTerm>, cap: Seq<Name>) -> FunTable {
    funs + Seq::new(ds.len(), |i: int| (ds[i].name, cap))
}

/// The expression without its local functions, and the top-level functions
/// that they became, in the order in which they were lifted. `scope` holds
/// the variables in scope, `funs` the functions in scope.
pub open spec fn lift(t: Term, scope: Seq<Name>, funs: FunTable) -> (Term, Seq<FunTerm>)
    decreases t,
{
    match t {
        Term::Num(_) | Term::Bool(_) | Term::Var(_) => (t, Seq::empty()),
        Term::Prim(p, args) => {
            let (args1, gs) = lift_args(args, scope, funs);
            (Term::Prim(p, args1), gs)
        },
        Term::Let(bs, body) => {
            let (bs1, gs1) = lift_bindings(bs, scope, funs);
            let (body1, gs2) = lift(*body, scope + bound_names(bs), funs);
            (Term::Let(bs1, Box::new(body1)), gs1 + gs2)
        },
        Term::If(c, a, b) => {
            let (c1, gs1) = lift(*c, scope, funs);
            let (a1, gs2) = lift(*a, scope, funs);
            let (b1, gs3) = lift(*b, scope, funs);
            (Term::If(Box::new(c1), Box::new(a1), Box::new(b1)), gs1 + gs2 + gs3)
        },
        Term::FunDefs(ds, body) => {
            let cap = captured_decls(ds, scope, funs, Seq::empty());
            let funs1 = with_group(funs, ds, cap);
            let gs1 = lift_decls(ds, cap, funs1);
            let (body1, gs2) = lift(*body, scope, funs1);
            (body1, gs1 + gs2)
        },
        Term::Call(f, args) => {
            let (args1, gs) = lift_args(args, scope, funs);
            (Term::ExternalCall(f, args1 + vars(extras(funs, f)), false), gs)
        },
        Term::InternalTailCall(f, args) => {
            let (args1, gs) = lift_args(args, scope, funs);
            (Term::InternalTailCall(f, args1), gs)
        },
        Term::ExternalCall(f, args, is_tail) => {
            let (args1, gs) = lift_args(args, scope, funs);
            (Term::ExternalCall(f, args1, is_tail), gs)
        },
    }
}

pub open spec fn lift_args(args: Seq<Term>, scope: Seq<Name>, funs: FunTable) -> (
    Seq<Term>,
    Seq<FunTerm>,
)
    decreases args,
{
    if args.len() == 0 {
        (Seq::empty(), Seq::empty())
    } else {
        let (before, gs1) = lift_args(args.drop_last(), scope, funs);
        let (last, gs2) = lift(args.last(), scope, funs);
        (before.push(last), gs1 + gs2)
    }
}

/// The bindings of a `let`: the value of each is lifted under the bindings
/// before it.
pub open spec fn lift_bindings(bs: Seq<(Name, Term)>, scope: Seq<Name>, funs: FunTable) -> (
    Seq<(Name, Term)>,
    Seq<FunTerm>,
)
    decreases bs,
{
    if bs.len() == 0 {
        (Seq::empty(), Seq::empty())
    } else {
        let (before, gs1) = lift_bindings(bs.drop_last(), scope, funs);
        let (last, gs2) = lift(bs.last().1, scope + bound_names(bs.drop_last()), funs);
        (before.push((bs.last().0, last)), gs1 + gs2)
    }
}

/// The functions of a group as top-level functions: each takes its own
/// parameters and then the captured variables, and comes after the functions
/// lifted out of its body.
pub open spec fn lift_decls(ds: Seq<FunTerm>, cap: Seq<Name>, funs: FunTable) -> Seq<FunTerm>
    decreases ds,
{
    if ds.len() == 0 {
        Seq::empty()
    } else {
        let d = ds.last();
        let (body, gs) = lift(d.body, d.params + cap, funs);
        lift_decls(ds.drop_last(), cap, funs) + gs.push(
            FunTerm { name: d.name, params: d.params + cap, body },
        )
    }
}

/// A whole program lifted: its bindings are renamed apart, then its local
/// functions are lifted.
pub open spec fn lambda_lift_term(t: Term) -> (Term, Seq<FunTerm>) {
    lift(uniquify_term(t), Seq::empty(), Seq::empty())
}

/// Adds `x` to `unbound` where it is in `scope` and not yet there.
pub fn capture(x: &String, scope: &Vec<String>, unbound: &mut Vec<String>)
    ensures
        names_of(final(unbound)@) == add_name(names_of(old(unbound)@), x@, names_of(scope@)),
{
    if find_name(scope, x).is_some() && find_name(unbound, x).is_none() {
        unbound.push(x.clone());
        assert(names_of(unbound@) =~= names_of(old(unbound)@).push(x@));
    }
}

/// Adds each of `xs` to `unbound` where it is in `scope` and not yet there.
pub fn capture_all(xs: &Vec<String>, scope: &Vec<String>, unbound: &mut Vec<String>)
    ensures
        names_of(final(unbound)@) == add_names(
            names_of(old(unbound)@),
            names_of(xs@),
            names_of(scope@),
        ),
{
    let ghost names = names_of(xs@);
    let ghost acc = names_of(unbound@);
    let mut i: usize = 0;
    assert(names.take(0).len() == 0);
    while i < xs.len()
        invariant
            i <= xs.len(),
            names == names_of(xs@),
            names_of(unbound@) == add_names(acc, names.take(i as int), names_of(scope@)),
        decreases xs.len() - i,
    {
        proof {
            assert(names.take(i + 1).drop_last() =~= names.take(i as int));
            assert(names.take(i + 1).last() == xs[i as int]@);
        }
        capture(&xs[i], scope, unbound);
        i += 1;
    }
    assert(names.take(xs.len() as int) =~= names);
}

/// The captured variables of the newest function named `f`.
pub fn extras_of<'a>(funs: &'a Vec<(String, Vec<String>)>, f: &String) -> (r: Option<
    &'a Vec<String>,
>)
    ensures
        match r {
            Some(xs) => names_of(xs@) == extras(fun_table_of(funs@), f@),
            None => extras(fun_table_of(funs@), f@) == Seq::<Name>::empty(),
        },
{
    assert(keys(fun_table_of(funs@)) =~= keys(table_of(funs@)));
    match find_last(funs, f) {
        Some(i) => Some(&funs[i].1),
        None => None,
    }
}

/// Adds to `unbound` the variables of `scope` that the expression reads.
pub fn search_unbound(
    e: &Exp<()>,
    scope: &Vec<String>,
    funs: &Vec<(String, Vec<String>)>,
    unbound: &mut Vec<String>,
)
    ensures
        names_of(final(unbound)@) == captured(
            e@,
            names_of(scope@),
            fun_table_of(funs@),
            names_of(old(unbound)@),
        ),
    decreases e,
{
    match e {
        Exp::Num(_, _) => {},
        Exp::Bool(_, _) => {},
        Exp::Var(s, _) => capture(s, scope, unbound),
        Exp::Prim(_, exps, _) => search_unbound_boxed(exps, scope, funs, unbound),
        Exp::Let { bindings, body, .. } => {
            search_unbound_bindings(bindings, scope, funs, unbound);
            search_unbound(body, scope, funs, unbound);
        },
        Exp::If { cond, thn, els, .. } => {
            search_unbound(cond, scope, funs, unbound);
            search_unbound(thn, scope, funs, unbound);
            search_unbound(els, scope, funs, unbound);
        },
        Exp::FunDefs { decls, body, .. } => {
            search_unbound_decls(decls, scope, funs, unbound);
            search_unbound(body, scope, funs, unbound);
        },
        Exp::Call(func, params, _) => {
            search_unbound_args(params, scope, funs, unbound);
            match extras_of(funs, func) {
                Some(xs) => capture_all(xs, scope, unbound),
                None => {},
            }
        },
        Exp::InternalTailCall(_, params, _) => search_unbound_args(params, scope, funs, unbound),
        Exp::ExternalCall { args, .. } => search_unbound_args(args, scope, funs, unbound),
    }
}

pub fn search_unbound_boxed(
    es: &Vec<Box<Exp<()>>>,
    scope: &Vec<String>,
    funs: &Vec<(String, Vec<String>)>,
    unbound: &mut Vec<String>,
)
    ensures
        names_of(final(unbound)@) == captured_args(
            boxed_terms(*es),
            names_of(scope@),
            fun_table_of(funs@),
            names_of(old(unbound)@),
        ),
    decreases es,
{
    let ghost ts = boxed_terms(*es);
    let ghost acc = names_of(unbound@);
    let mut i: usize = 0;
    assert(ts.take(0).len() == 0);
    while i < es.len()
        invariant
            i <= es.len(),
            ts == boxed_terms(*es),
            names_of(unbound@) == captured_args(
                ts.take(i as int),
                names_of(scope@),
                fun_table_of(funs@),
                acc,
            ),
        decreases es.len() - i,
    {
        proof {
            assert(ts.take(i + 1).drop_last() =~= ts.take(i as int));
            assert(ts.take(i + 1).last() == es[i as int].term());
        }
        search_unbound(&*es[i], scope, funs, unbound);
        i += 1;
    }
    assert(ts.take(es.len() as int) =~= ts);
}

pub fn search_unbound_args(
    es: &Vec<Exp<()>>,
    scope: &Vec<String>,
    funs: &Vec<(String, Vec<String>)>,
    unbound: &mut Vec<String>,
)
    ensures
        names_of(final(unbound)@) == captured_args(
            terms(*es),
            names_of(scope@),
            fun_table_of(funs@),
            names_of(old(unbound)@),
        ),
    decreases es,
{
    let ghost ts = terms(*es);
    let ghost acc = names_of(unbound@);
    let mut i: usize = 0;
    assert(ts.take(0).len() == 0);
    while i < es.len()
        invariant
            i <= es.len(),
            ts == terms(*es),
            names_of(unbound@) == captured_args(
                ts.take(i as int),
                names_of(scope@),
                fun_table_of(funs@),
                acc,
            ),
        decreases es.len() - i,
    {
        proof {
            assert(ts.take(i + 1).drop_last() =~= ts.take(i as int));
            assert(ts.take(i + 1).last() == es[i as int].term());
        }
        search_unbound(&es[i], scope, funs, unbound);
        i += 1;
    }
    assert(ts.take(es.len() as int) =~= ts);
}

pub fn search_unbound_bindings(
    bs: &Vec<(String, Exp<()>)>,
    scope: &Vec<String>,
    funs: &Vec<(String, Vec<String>)>,
    unbound: &mut Vec<String>,
)
    ensures
        names_of(final(unbound)@) == captured_bindings(
            binding_terms(*bs),
            names_of(scope@),
            fun_table_of(funs@),
            names_of(old(unbound)@),
        ),
    decreases bs,
{
    let ghost ts = binding_terms(*bs);
    let ghost acc = names_of(unbound@);
    let mut i: usize = 0;
    assert(ts.take(0).len() == 0);
    while i < bs.len()
        invariant
            i <= bs.len(),
            ts == binding_terms(*bs),
            names_of(unbound@) == captured_bindings(
                ts.take(i as int),
                names_of(scope@),
                fun_table_of(funs@),
                acc,
            ),
        decreases bs.len() - i,
    {
        proof {
            assert(ts.take(i + 1).drop_last() =~= ts.take(i as int));
            assert(ts.take(i + 1).last() == (bs[i as int].0@, bs[i as int].1.term()));
        }
        search_unbound(&bs[i].1, scope, funs, unbound);
        i += 1;
    }
    assert(ts.take(bs.len() as int) =~= ts);
}

pub fn search_unbound_decls(
    ds: &Vec<FunDecl<Exp<()>, ()>>,
    scope: &Vec<String>,
    funs: &Vec<(String, Vec<String>)>,
    unbound: &mut Vec<String>,
)
    ensures
        names_of(final(unbound)@) == captured_decls(
            decl_terms(*ds),
            names_of(scope@),
            fun_table_of(funs@),
            names_of(old(unbound)@),
        ),
    decreases ds,
{
    let ghost ts = decl_terms(*ds);
    let ghost acc = names_of(unbound@);
    let mut i: usize = 0;
    assert(ts.take(0).len() == 0);
    while i < ds.len()
        invariant
            i <= ds.len(),
            ts == decl_terms(*ds),
            names_of(unbound@) == captured_decls(
                ts.take(i as int),
                names_of(scope@),
                fun_table_of(funs@),
                acc,
            ),
        decreases ds.len() - i,
    {
        proof {
            assert(ts.take(i + 1).drop_last() =~= ts.take(i as int));
            assert(ts.take(i + 1).last() == fun_term(ds[i as int]));
        }
        search_unbound(&ds[i].body, scope, funs, unbound);
        i += 1;
    }
    assert(ts.take(ds.len() as int) =~= ts);
}

/// The arguments of a call followed by the variables that the callee
/// captures.
pub fn rewrite_params(args: Vec<Exp<()>>, captured: &Vec<String>) -> (r: Vec<Exp<()>>)
    ensures
        terms(r) == terms(args) + vars(names_of(captured@)),
{
    let mut out = args;
    let ghost start = terms(out);
    let ghost xs = names_of(captured@);
    let mut i: usize = 0;
    assert(terms(out) =~= start + vars(xs.take(0)));
    while i < captured.len()
        invariant
            i <= captured.len(),
            xs == names_of(captured@),
            terms(out) == start + vars(xs.take(i as int)),
        decreases captured.len() - i,
    {
        let ghost before = terms(out);
        let v = Exp::Var(captured[i].clone(), ());
        out.push(v);
        proof {
            assert(terms(out) =~= before.push(Term::Var(captured[i as int]@)));
            assert(terms(out) =~= start + vars(xs.take(i + 1)));
        }
        i += 1;
    }
    assert(xs.take(captured.len() as int) =~= xs);
    out
}

pub fn lift_boxed(
    es: &Vec<Box<Exp<()>>>,
    scope: &mut Vec<String>,
    funs: &mut Vec<(String, Vec<String>)>,
    globals: &mut Vec<FunDecl<Exp<()>, ()>>,
) -> (r: Vec<Box<Exp<()>>>)
    ensures
        boxed_terms(r) == lift_args(
            boxed_terms(*es),
            names_of(old(scope)@),
            fun_table_of(old(funs)@),
        ).0,
        decl_terms(*final(globals)) == decl_terms(*old(globals)) + lift_args(
            boxed_terms(*es),
            names_of(old(scope)@),
            fun_table_of(old(funs)@),
        ).1,
        final(scope)@ == old(scope)@,
        final(funs)@ == old(funs)@,
    decreases es,
{
    let mut out: Vec<Box<Exp<()>>> = Vec::new();
    let ghost ts = boxed_terms(*es);
    let ghost sc = names_of(scope@);
    let ghost ft = fun_table_of(funs@);
    let ghost g0 = decl_terms(*globals);
    let mut i: usize = 0;
    assert(ts.take(0).len() == 0);
    assert(boxed_terms(out) =~= Seq::<Term>::empty());
    assert(decl_terms(*globals) =~= g0 + Seq::<FunTerm>::empty());
    while i < es.len()
        invariant
            i <= es.len(),
            ts == boxed_terms(*es),
            scope@ == old(scope)@,
            funs@ == old(funs)@,
            sc == names_of(scope@),
            ft == fun_table_of(funs@),
            boxed_terms(out) == lift_args(ts.take(i as int), sc, ft).0,
            decl_terms(*globals) == g0 + lift_args(ts.take(i as int), sc, ft).1,
        decreases es.len() - i,
    {
        proof {
            assert(ts.take(i + 1).drop_last() =~= ts.take(i as int));
            assert(ts.take(i + 1).last() == es[i as int].term());
        }
        let ghost before = boxed_terms(out);
        let ghost gb = lift_args(ts.take(i as int), sc, ft).1;
        let e = lambda_lift_inner(&*es[i], scope, funs, globals);
        out.push(Box::new(e));
        proof {
            assert(boxed_terms(out) =~= before.push(e.term()));
            assert(decl_terms(*globals) =~= g0 + (gb + lift(es[i as int].term(), sc, ft).1));
        }
        i += 1;
    }
    assert(ts.take(es.len() as int) =~= ts);
    out
}

pub fn lift_args_of(
    es: &Vec<Exp<()>>,
    scope: &mut Vec<String>,
    funs: &mut Vec<(String, Vec<String>)>,
    globals: &mut Vec<FunDecl<Exp<()>, ()>>,
) -> (r: Vec<Exp<()>>)
    ensures
        terms(r) == lift_args(terms(*es), names_of(old(scope)@), fun_table_of(old(funs)@)).0,
        decl_terms(*final(globals)) == decl_terms(*old(globals)) + lift_args(
            terms(*es),
            names_of(old(scope)@),
            fun_table_of(old(funs)@),
        ).1,
        final(scope)@ == old(scope)@,
        final(funs)@ == old(funs)@,
    decreases es,
{
    let mut out: Vec<Exp<()>> = Vec::new();
    let ghost ts = terms(*es);
    let ghost sc = names_of(scope@);
    let ghost ft = fun_table_of(funs@);
    let ghost g0 = decl_terms(*globals);
    let mut i: usize = 0;
    assert(ts.take(0).len() == 0);
    assert(terms(out) =~= Seq::<Term>::empty());
    assert(decl_terms(*globals) =~= g0 + Seq::<FunTerm>::empty());
    while i < es.len()
        invariant
            i <= es.len(),
            ts == terms(*es),
            scope@ == old(scope)@,
            funs@ == old(funs)@,
            sc == names_of(scope@),
            ft == fun_table_of(funs@),
            terms(out) == lift_args(ts.take(i as int), sc, ft).0,
            decl_terms(*globals) == g0 + lift_args(ts.take(i as int), sc, ft).1,
        decreases es.len() - i,
    {
        proof {
            assert(ts.take(i + 1).drop_last() =~= ts.take(i as int));
            assert(ts.take(i + 1).last() == es[i as int].term());
        }
        let ghost before = terms(out);
        let ghost gb = lift_args(ts.take(i as int), sc, ft).1;
        let e = lambda_lift_inner(&es[i], scope, funs, globals);
        out.push(e);
        proof {
            assert(terms(out) =~= before.push(e.term()));
            assert(decl_terms(*globals) =~= g0 + (gb + lift(es[i as int].term(), sc, ft).1));
        }
        i += 1;
    }
    assert(ts.take(es.len() as int) =~= ts);
    out
}

/// The bindings of a `let`, lifted; `scope` is left extended by the names
/// they bind, for the body.
pub fn lift_bindings_of(
    bs: &Vec<(String, Exp<()>)>,
    scope: &mut Vec<String>,
    funs: &mut Vec<(String, Vec<String>)>,
    globals: &mut Vec<FunDecl<Exp<()>, ()>>,
) -> (r: Vec<(String, Exp<()>)>)
    ensures
        binding_terms(r) == lift_bindings(
            binding_terms(*bs),
            names_of(old(scope)@),
            fun_table_of(old(funs)@),
        ).0,
        decl_terms(*final(globals)) == decl_terms(*old(globals)) + lift_bindings(
            binding_terms(*bs),
            names_of(old(scope)@),
            fun_table_of(old(funs)@),
        ).1,
        final(scope)@.len() == old(scope)@.len() + bs.len(),
        final(scope)@.take(old(scope)@.len() as int) == old(scope)@,
        names_of(final(scope)@) == names_of(old(scope)@) + bound_names(binding_terms(*bs)),
        final(funs)@ == old(funs)@,
    decreases bs,
{
    let mut out: Vec<(String, Exp<()>)> = Vec::new();
    let ghost ts = binding_terms(*bs);
    let ghost sc = names_of(scope@);
    let ghost ft = fun_table_of(funs@);
    let ghost g0 = decl_terms(*globals);
    let mut i: usize = 0;
    assert(ts.take(0).len() == 0);
    assert(binding_terms(out) =~= Seq::<(Name, Term)>::empty());
    assert(decl_terms(*globals) =~= g0 + Seq::<FunTerm>::empty());
    assert(scope@.take(old(scope)@.len() as int) =~= old(scope)@);
    assert(names_of(scope@) =~= sc + bound_names(ts.take(0)));
    while i < bs.len()
        invariant
            i <= bs.len(),
            ts == binding_terms(*bs),
            funs@ == old(funs)@,
            sc == names_of(old(scope)@),
            ft == fun_table_of(funs@),
            scope@.len() == old(scope)@.len() + i,
            scope@.take(old(scope)@.len() as int) == old(scope)@,
            names_of(scope@) == sc + bound_names(ts.take(i as int)),
            binding_terms(out) == lift_bindings(ts.take(i as int), sc, ft).0,
            decl_terms(*globals) == g0 + lift_bindings(ts.take(i as int), sc, ft).1,
        decreases bs.len() - i,
    {
        proof {
            assert(ts.take(i + 1).drop_last() =~= ts.take(i as int));
            assert(ts.take(i + 1).last() == (bs[i as int].0@, bs[i as int].1.term()));
        }
        let ghost before = binding_terms(out);
        let ghost gb = lift_bindings(ts.take(i as int), sc, ft).1;
        let ghost held = scope@;
        let e = lambda_lift_inner(&bs[i].1, scope, funs, globals);
        scope.push(bs[i].0.clone());
        out.push((bs[i].0.clone(), e));
        proof {
            assert(binding_terms(out) =~= before.push((bs[i as int].0@, e.term())));
            assert(decl_terms(*globals) =~= g0 + (gb + lift(
                bs[i as int].1.term(),
                sc + bound_names(ts.take(i as int)),
                ft,
            ).1));
            assert(names_of(scope@) =~= names_of(held).push(bs[i as int].0@));
            assert(bound_names(ts.take(i + 1)) =~= bound_names(ts.take(i as int)).push(
                bs[i as int].0@,
            ));
            assert(names_of(scope@) =~= sc + bound_names(ts.take(i + 1)));
            assert(scope@.take(old(scope)@.len() as int) =~= held.take(old(scope)@.len() as int));
        }
        i += 1;
    }
    assert(ts.take(bs.len() as int) =~= ts);
    out
}

/// Adds the functions of a group to the table, each with the captured
/// variables `cap`.
pub fn enter_group(
    funs: &mut Vec<(String, Vec<String>)>,
    ds: &Vec<FunDecl<Exp<()>, ()>>,
    cap: &Vec<String>,
)
    ensures
        final(funs)@.len() == old(funs)@.len() + ds.len(),
        final(funs)@.take(old(funs)@.len() as int) == old(funs)@,
        fun_table_of(final(funs)@) == with_group(
            fun_table_of(old(funs)@),
            decl_terms(*ds),
            names_of(cap@),
        ),
{
    let ghost ft = fun_table_of(funs@);
    let ghost ts = decl_terms(*ds);
    let mut i: usize = 0;
    assert(fun_table_of(funs@) =~= with_group(ft, ts.take(0), names_of(cap@)));
    assert(funs@.take(old(funs)@.len() as int) =~= old(funs)@);
    while i < ds.len()
        invariant
            i <= ds.len(),
            ts == decl_terms(*ds),
            funs@.len() == old(funs)@.len() + i,
            funs@.take(old(funs)@.len() as int) == old(funs)@,
            fun_table_of(funs@) == with_group(ft, ts.take(i as int), names_of(cap@)),
        decreases ds.len() - i,
    {
        let ghost held = funs@;
        funs.push((ds[i].name.clone(), copy_names(cap)));
        proof {
            assert(ts[i as int] == fun_term(ds[i as int]));
            assert(fun_table_of(funs@) =~= fun_table_of(held).push(
                (ds[i as int].name@, names_of(cap@)),
            ));
            assert(with_group(ft, ts.take(i + 1), names_of(cap@)) =~= with_group(
                ft,
                ts.take(i as int),
                names_of(cap@),
            ).push((ts[i as int].name, names_of(cap@))));
            assert(funs@.take(old(funs)@.len() as int) =~= held.take(old(funs)@.len() as int));
        }
        i += 1;
    }
    assert(ts.take(ds.len() as int) =~= ts);
}

/// The parameters of a lifted function: its own, then the captured
/// variables.
pub fn lifted_parameters(params: &Vec<String>, cap: &Vec<String>) -> (r: Vec<String>)
    ensures
        names_of(r@) == names_of(params@) + names_of(cap@),
{
    let mut out = copy_names(params);
    let mut more = copy_names(cap);
    out.append(&mut more);
    assert(names_of(out@) =~= names_of(params@) + names_of(cap@));
    out
}

/// The functions of a group lifted to the top level.
pub fn lift_decls_of(
    ds: &Vec<FunDecl<Exp<()>, ()>>,
    cap: &Vec<String>,
    funs: &mut Vec<(String, Vec<String>)>,
    globals: &mut Vec<FunDecl<Exp<()>, ()>>,
)
    ensures
        decl_terms(*final(globals)) == decl_terms(*old(globals)) + lift_decls(
            decl_terms(*ds),
            names_of(cap@),
            fun_table_of(old(funs)@),
        ),
        final(funs)@ == old(funs)@,
    decreases ds,
{
    let ghost ts = decl_terms(*ds);
    let ghost ft = fun_table_of(funs@);
    let ghost g0 = decl_terms(*globals);
    let ghost cs = names_of(cap@);
    let mut i: usize = 0;
    assert(ts.take(0).len() == 0);
    assert(decl_terms(*globals) =~= g0 + Seq::<FunTerm>::empty());
    while i < ds.len()
        invariant
            i <= ds.len(),
            ts == decl_terms(*ds),
            funs@ == old(funs)@,
            ft == fun_table_of(funs@),
            cs == names_of(cap@),
            decl_terms(*globals) == g0 + lift_decls(ts.take(i as int), cs, ft),
        decreases ds.len() - i,
    {
        proof {
            assert(ts.take(i + 1).drop_last() =~= ts.take(i as int));
            assert(ts.take(i + 1).last() == fun_term(ds[i as int]));
        }
        let ghost gb = lift_decls(ts.take(i as int), cs, ft);
        let parameters = lifted_parameters(&ds[i].parameters, cap);
        let mut scope = copy_names(&parameters);
        let body = lambda_lift_inner(&ds[i].body, &mut scope, funs, globals);
        let ghost mid = decl_terms(*globals);
        let d = FunDecl { name: ds[i].name.clone(), parameters, body, ann: () };
        let ghost dt = fun_term(d);
        globals.push(d);
        proof {
            let ghost step = lift(ts[i as int].body, ts[i as int].params + cs, ft);
            assert(decl_terms(*globals) =~= mid.push(dt));
            assert(decl_terms(*globals) =~= g0 + (gb + step.1.push(dt)));
        }
        i += 1;
    }
    assert(ts.take(ds.len() as int) =~= ts);
}

/// The expression without its local functions; the top-level functions that
/// they became are added to `globals`.
pub fn lambda_lift_inner(
    e: &Exp<()>,
    scope: &mut Vec<String>,
    funs: &mut Vec<(String, Vec<String>)>,
    globals: &mut Vec<FunDecl<Exp<()>, ()>>,
) -> (r: Exp<()>)
    ensures
        r@ == lift(e@, names_of(old(scope)@), fun_table_of(old(funs)@)).0,
        decl_terms(*final(globals)) == decl_terms(*old(globals)) + lift(
            e@,
            names_of(old(scope)@),
            fun_table_of(old(funs)@),
        ).1,
        final(scope)@ == old(scope)@,
        final(funs)@ == old(funs)@,
    decreases e,
{
    let ghost g0 = decl_terms(*globals);
    let ghost sc = names_of(scope@);
    let ghost ft = fun_table_of(funs@);
    match e {
        Exp::Num(n, _) => {
            assert(decl_terms(*globals) =~= g0 + Seq::<FunTerm>::empty());
            Exp::Num(*n, ())
        },
        Exp::Bool(b, _) => {
            assert(decl_terms(*globals) =~= g0 + Seq::<FunTerm>::empty());
            Exp::Bool(*b, ())
        },
        Exp::Var(x, _) => {
            assert(decl_terms(*globals) =~= g0 + Seq::<FunTerm>::empty());
            Exp::Var(x.clone(), ())
        },
        Exp::Prim(p, exps, _) => {
            let new_exps = lift_boxed(exps, scope, funs, globals);
            Exp::Prim(*p, new_exps, ())
        },
        Exp::Let { bindings, body, .. } => {
            let len = scope.len();
            let new_bindings = lift_bindings_of(bindings, scope, funs, globals);
            let ghost g1 = lift_bindings(binding_terms(*bindings), sc, ft).1;
            let new_bod = lambda_lift_inner(body, scope, funs, globals);
            scope.truncate(len);
            proof {
                assert(scope@ =~= old(scope)@);
                let ghost g2 = lift(body.term(), sc + bound_names(binding_terms(*bindings)), ft).1;
                assert(decl_terms(*globals) =~= g0 + (g1 + g2));
            }
            Exp::Let { bindings: new_bindings, body: Box::new(new_bod), ann: () }
        },
        Exp::If { cond, thn, els, .. } => {
            let c = lambda_lift_inner(cond, scope, funs, globals);
            let a = lambda_lift_inner(thn, scope, funs, globals);
            let b = lambda_lift_inner(els, scope, funs, globals);
            proof {
                let ghost g1 = lift(cond.term(), sc, ft).1;
                let ghost g2 = lift(thn.term(), sc, ft).1;
                let ghost g3 = lift(els.term(), sc, ft).1;
                assert(decl_terms(*globals) =~= g0 + (g1 + g2 + g3));
            }
            Exp::If { cond: Box::new(c), thn: Box::new(a), els: Box::new(b), ann: () }
        },
        Exp::FunDefs { decls, body, .. } => {
            let mut cap: Vec<String> = Vec::new();
            assert(names_of(cap@) =~= Seq::<Name>::empty());
            search_unbound_decls(decls, scope, funs, &mut cap);
            let len = funs.len();
            enter_group(funs, decls, &cap);
            lift_decls_of(decls, &cap, funs, globals);
            let ghost g1 = decl_terms(*globals);
            let new_body = lambda_lift_inner(body, scope, funs, globals);
            funs.truncate(len);
            proof {
                assert(funs@ =~= old(funs)@);
                let ghost ft1 = with_group(ft, decl_terms(*decls), names_of(cap@));
                assert(decl_terms(*globals) =~= g0 + (lift_decls(
                    decl_terms(*decls),
                    names_of(cap@),
                    ft1,
                ) + lift(body.term(), sc, ft1).1));
            }
            new_body
        },
        Exp::Call(func, params, _) => {
            let new_params = lift_args_of(params, scope, funs, globals);
            let all = match extras_of(funs, func) {
                Some(xs) => rewrite_params(new_params, xs),
                None => {
                    assert(terms(new_params) =~= terms(new_params) + vars(Seq::<Name>::empty()));
                    new_params
                },
            };
            Exp::ExternalCall { fun_name: func.clone(), args: all, is_tail: false, ann: () }
        },
        Exp::InternalTailCall(func, params, _) => {
            let new_params = lift_args_of(params, scope, funs, globals);
            Exp::InternalTailCall(func.clone(), new_params, ())
        },
        Exp::ExternalCall { fun_name, args, is_tail, .. } => {
            let new_params = lift_args_of(args, scope, funs, globals);
            Exp::ExternalCall {
                fun_name: fun_name.clone(),
                args: new_params,
                is_tail: *is_tail,
                ann: (),
            }
        },
    }
}

/// Lifts the local functions of a program to the top level: the functions,
/// in the order in which they were lifted, and the main expression.
pub fn lambda_lift<Ann>(p: &Exp<Ann>) -> (r: (Vec<FunDecl<Exp<()>, ()>>, Exp<()>))
    requires
        binders(p@) <= u32::MAX,
    ensures
        r.1@ == lambda_lift_term(p@).0,
        decl_terms(r.0) == lambda_lift_term(p@).1,
{
    let mut mapping: Vec<(String, String)> = Vec::new();
    let mut counter: u32 = 0;
    assert(renaming_of(mapping@) =~= Seq::<(Name, Name)>::empty());
    let unique_p = uniquify(p, &mut mapping, &mut counter);
    let mut scope: Vec<String> = Vec::new();
    let mut funs: Vec<(String, Vec<String>)> = Vec::new();
    let mut globals: Vec<FunDecl<Exp<()>, ()>> = Vec::new();
    assert(names_of(scope@) =~= Seq::<Name>::empty());
    assert(fun_table_of(funs@) =~= Seq::<(Name, Seq<Name>)>::empty());
    assert(decl_terms(globals) =~= Seq::<FunTerm>::empty());
    let main = lambda_lift_inner(&unique_p, &mut scope, &mut funs, &mut globals);
    assert(decl_terms(globals) =~= lambda_lift_term(p@).1);
    (globals, main)
}

} // verus!
