//! Scopes through the passes: a program that the check accepts comes out of
//! renaming, lifting and sequentializing in a form that the code generator
//! takes, with every name it reads bound.

use crate::checker::{args_error, boxed_error, check_exp, decls_error, Kind, let_error, let_names};
use crate::checker::{Scope, with_funs, with_vars};
use crate::lambda_lift::{bound_names, extras, FunTable};
use crate::names::{decimal, has_name, index_of, keys, lemma_index_of, lookup};
use crate::syntax::{binding_terms, boxed_terms, decl_terms, Exp, FunDecl, FunTerm, Name, names_of};
use crate::syntax::{Term, terms};
use crate::uniquify::{args_binders, binders, bindings_binders, decl_names, decls_binders, extend};
use crate::uniquify::{fresh_names, let_scope, rename, Renaming, uniq, uniq_args, uniq_bindings};
use crate::uniquify::uniq_decls;
use vstd::prelude::*;

verus! {

/// Whether every name of `xs` is in `sc`.
pub open spec fn names_in(xs: Seq<Name>, sc: Seq<Name>) -> bool {
    forall|k: int| 0 <= k < xs.len() ==> has_name(sc, #[trigger] xs[k])
}

/// Whether an expression is one that a text can spell: every primitive has
/// its operands, and no call is of the forms that only the compiler makes.
pub open spec fn surface(t: Term) -> bool
    decreases t,
{
    match t {
        Term::Num(_) | Term::Bool(_) | Term::Var(_) => true,
        Term::Prim(p, args) => args.len() == p.arity() && forall|i: int|
            0 <= i < args.len() ==> surface(#[trigger] args[i]),
        Term::Let(bs, body) => surface(*body) && forall|i: int|
            0 <= i < bs.len() ==> surface((#[trigger] bs[i]).1),
        Term::If(c, a, b) => surface(*c) && surface(*a) && surface(*b),
        Term::FunDefs(ds, body) => surface(*body) && forall|i: int|
            0 <= i < ds.len() ==> surface((#[trigger] ds[i]).body),
        Term::Call(_, args) => forall|i: int| 0 <= i < args.len() ==> surface(#[trigger] args[i]),
        Term::InternalTailCall(_, _) => false,
        Term::ExternalCall(_, _, _) => false,
    }
}

/// A scope extended by the functions of a group.
pub open spec fn scope_funs(env: Scope, ds: Seq<FunTerm>) -> Scope {
    env + Seq::new(ds.len(), |j: int| (ds[j].name, Kind::Fun(ds[j].params.len() as usize)))
}

/// What it takes for a primitive, a `let`, a group of functions and a call
/// to be such that a text can spell them.
pub proof fn lemma_surface_parts(t: Term)
    ensures
        t matches Term::Prim(p, args) ==> (surface(t) <==> args.len() == p.arity() && forall|
            i: int,
        |
            0 <= i < args.len() ==> surface(#[trigger] args[i])),
        t matches Term::Let(bs, body) ==> (surface(t) <==> surface(*body) && forall|i: int|
            0 <= i < bs.len() ==> surface((#[trigger] bs[i]).1)),
        t matches Term::FunDefs(ds, body) ==> (surface(t) <==> surface(*body) && forall|i: int|
            0 <= i < ds.len() ==> surface((#[trigger] ds[i]).body)),
        t matches Term::Call(_, args) ==> (surface(t) <==> forall|i: int|
            0 <= i < args.len() ==> surface(#[trigger] args[i])),
{
    match t {
        Term::Prim(p, args) => {},
        Term::Let(bs, body) => {},
        Term::FunDefs(ds, body) => {},
        Term::Call(_, args) => {},
        _ => {},
    }
}

/// Whether every variable that the expression reads is bound as a variable
/// where it is read, and every function that it calls as a function of as
/// many parameters as the call has arguments.
pub open spec fn scoped(t: Term, env: Scope) -> bool
    decreases t,
{
    match t {
        Term::Num(_) | Term::Bool(_) => true,
        Term::Var(x) => lookup(env, x) == Some(Kind::Var),
        Term::Prim(_, args) => forall|i: int|
            0 <= i < args.len() ==> scoped(#[trigger] args[i], env),
        Term::Let(bs, body) => scoped(*body, with_vars(env, bound_names(bs))) && forall|i: int|
            0 <= i < bs.len() ==> scoped(
                (#[trigger] bs[i]).1,
                with_vars(env, bound_names(bs).take(i)),
            ),
        Term::If(c, a, b) => scoped(*c, env) && scoped(*a, env) && scoped(*b, env),
        Term::FunDefs(ds, body) => scoped(*body, scope_funs(env, ds)) && forall|i: int|
            0 <= i < ds.len() ==> (#[trigger] ds[i]).params.len() <= usize::MAX && scoped(
                ds[i].body,
                with_vars(scope_funs(env, ds), ds[i].params),
            ),
        Term::Call(f, args) => args.len() <= usize::MAX && lookup(env, f) == Some(
            Kind::Fun(args.len() as usize),
        ) && forall|i: int| 0 <= i < args.len() ==> scoped(#[trigger] args[i], env),
        Term::InternalTailCall(_, args) => forall|i: int|
            0 <= i < args.len() ==> scoped(#[trigger] args[i], env),
        Term::ExternalCall(_, args, _) => forall|i: int|
            0 <= i < args.len() ==> scoped(#[trigger] args[i], env),
    }
}

/// Whether an expression can be lifted under the variables `sc` and the
/// functions `funs`: it is one that a text can spell, every variable it
/// reads is in scope, and so is every variable that a function it calls
/// captures.
pub open spec fn liftable(t: Term, sc: Seq<Name>, funs: FunTable) -> bool
    decreases t,
{
    match t {
        Term::Num(_) | Term::Bool(_) => true,
        Term::Var(x) => has_name(sc, x),
        Term::Prim(p, args) => args.len() == p.arity() && forall|i: int|
            0 <= i < args.len() ==> liftable(#[trigger] args[i], sc, funs),
        Term::Let(bs, body) => liftable(*body, sc + bound_names(bs), funs) && forall|i: int|
            0 <= i < bs.len() ==> liftable(
                (#[trigger] bs[i]).1,
                sc + bound_names(bs).take(i),
                funs,
            ),
        Term::If(c, a, b) => liftable(*c, sc, funs) && liftable(*a, sc, funs) && liftable(
            *b,
            sc,
            funs,
        ),
        Term::FunDefs(ds, body) => liftable(*body, sc, funs) && forall|i: int|
            0 <= i < ds.len() ==> liftable((#[trigger] ds[i]).body, sc + ds[i].params, funs),
        Term::Call(f, args) => names_in(extras(funs, f), sc) && forall|i: int|
            0 <= i < args.len() ==> liftable(#[trigger] args[i], sc, funs),
        Term::InternalTailCall(_, _) => false,
        Term::ExternalCall(_, _, _) => false,
    }
}

/// Whether an expression is in the form that lifting leaves, with every
/// variable it reads in scope: no local function is left, and every call is
/// a call of a top-level function.
pub open spec fn ready(t: Term, sc: Seq<Name>) -> bool
    decreases t,
{
    match t {
        Term::Num(_) | Term::Bool(_) => true,
        Term::Var(x) => has_name(sc, x),
        Term::Prim(p, args) => args.len() == p.arity() && forall|i: int|
            0 <= i < args.len() ==> ready(#[trigger] args[i], sc),
        Term::Let(bs, body) => ready(*body, sc + bound_names(bs)) && forall|i: int|
            0 <= i < bs.len() ==> ready((#[trigger] bs[i]).1, sc + bound_names(bs).take(i)),
        Term::If(c, a, b) => ready(*c, sc) && ready(*a, sc) && ready(*b, sc),
        Term::ExternalCall(_, args, _) => forall|i: int|
            0 <= i < args.len() ==> ready(#[trigger] args[i], sc),
        Term::FunDefs(_, _) => false,
        Term::Call(_, _) => false,
        Term::InternalTailCall(_, _) => false,
    }
}

/// Whether each top-level function is in the form that lifting leaves, with
/// every variable it reads among its parameters or bound in its body.
pub open spec fn globals_ready(gs: Seq<FunTerm>) -> bool {
    forall|k: int| 0 <= k < gs.len() ==> ready((#[trigger] gs[k]).body, gs[k].params)
}

/// A name is in a list with one more name if the list has it or it is that
/// name.
pub proof fn lemma_has_name_push(sc: Seq<Name>, y: Name, x: Name)
    ensures
        has_name(sc.push(y), x) <==> (x == y || has_name(sc, x)),
{
    assert(sc.push(y).drop_last() =~= sc);
}

/// A name is in a concatenation if it is in either part.
pub proof fn lemma_has_name_concat(a: Seq<Name>, b: Seq<Name>, x: Name)
    ensures
        has_name(a + b, x) <==> (has_name(a, x) || has_name(b, x)),
    decreases b.len(),
{
    if b.len() == 0 {
        assert(a + b =~= a);
    } else {
        assert((a + b).drop_last() =~= a + b.drop_last());
        assert((a + b).last() == b.last());
        lemma_has_name_concat(a, b.drop_last(), x);
    }
}

/// The newest entry of a concatenation is that of the second part, or else
/// that of the first.
pub proof fn lemma_index_of_concat(a: Seq<Name>, b: Seq<Name>, x: Name)
    ensures
        index_of(a + b, x) == (if has_name(b, x) {
            a.len() + index_of(b, x)
        } else {
            index_of(a, x)
        }),
    decreases b.len(),
{
    if b.len() == 0 {
        assert(a + b =~= a);
    } else {
        assert((a + b).drop_last() =~= a + b.drop_last());
        assert((a + b).last() == b.last());
        lemma_index_of_concat(a, b.drop_last(), x);
    }
}

/// Names that are in a list are in any list that holds it.
pub proof fn lemma_names_in_concat(xs: Seq<Name>, a: Seq<Name>, b: Seq<Name>)
    ensures
        names_in(xs, a) ==> names_in(xs, a + b),
        names_in(xs, b) ==> names_in(xs, a + b),
{
    assert forall|k: int| 0 <= k < xs.len() implies (has_name(a, #[trigger] xs[k]) ==> has_name(
        a + b,
        xs[k],
    )) && (has_name(b, xs[k]) ==> has_name(a + b, xs[k])) by {
        lemma_has_name_concat(a, b, xs[k]);
    }
}

/// No error among the first operands means no error in any of them.
pub proof fn lemma_boxed_error_none<Span>(es: &Vec<Box<Exp<Span>>>, n: nat, env: Scope, i: int)
    requires
        boxed_error(es, n, env) is None,
        0 <= i < n <= es.len(),
    ensures
        check_exp(&*es[i], env) is None,
    decreases n,
{
    if i < n - 1 {
        lemma_boxed_error_none(es, (n - 1) as nat, env, i);
    }
}

pub proof fn lemma_args_error_none<Span>(es: &Vec<Exp<Span>>, n: nat, env: Scope, i: int)
    requires
        args_error(es, n, env) is None,
        0 <= i < n <= es.len(),
    ensures
        check_exp(&es[i], env) is None,
    decreases n,
{
    if i < n - 1 {
        lemma_args_error_none(es, (n - 1) as nat, env, i);
    }
}

pub proof fn lemma_let_error_none<Span>(
    bs: &Vec<(String, Exp<Span>)>,
    n: nat,
    env: Scope,
    ann: Span,
    i: int,
)
    requires
        let_error(bs, n, env, ann) is None,
        0 <= i < n <= bs.len(),
    ensures
        check_exp(&bs[i].1, with_vars(env, let_names(*bs).take(i))) is None,
    decreases n,
{
    if i < n - 1 {
        lemma_let_error_none(bs, (n - 1) as nat, env, ann, i);
    }
}

pub proof fn lemma_decls_error_none<Span>(
    ds: &Vec<FunDecl<Exp<Span>, Span>>,
    n: nat,
    env: Scope,
    i: int,
)
    requires
        decls_error(ds, n, env) is None,
        0 <= i < n <= ds.len(),
    ensures
        check_exp(&ds[i].body, with_vars(env, names_of(ds[i].parameters@))) is None,
    decreases n,
{
    if i < n - 1 {
        lemma_decls_error_none(ds, (n - 1) as nat, env, i);
    }
}

/// In an expression that the check accepts, every variable that is read is
/// bound as a variable, and every function that is called as a function of
/// as many parameters.
pub proof fn lemma_checked_scoped<Span>(e: &Exp<Span>, env: Scope)
    requires
        check_exp(e, env) is None,
    ensures
        scoped(e@, env),
    decreases e,
{
    match e {
        Exp::Num(_, _) => {},
        Exp::Bool(_, _) => {},
        Exp::Var(_, _) => {},
        Exp::Prim(_, es, _) => {
            let ts = boxed_terms(*es);
            assert forall|i: int| 0 <= i < ts.len() implies scoped(#[trigger] ts[i], env) by {
                lemma_boxed_error_none(es, es.len() as nat, env, i);
                lemma_checked_scoped(&*es[i], env);
            }
        },
        Exp::Let { bindings, body, ann } => {
            let ts = binding_terms(*bindings);
            assert(bound_names(ts) =~= let_names(*bindings));
            assert forall|i: int| 0 <= i < ts.len() implies scoped(
                (#[trigger] ts[i]).1,
                with_vars(env, bound_names(ts).take(i)),
            ) by {
                lemma_let_error_none(bindings, bindings.len() as nat, env, *ann, i);
                lemma_checked_scoped(&bindings[i].1, with_vars(env, let_names(*bindings).take(i)));
            }
            lemma_checked_scoped(body, with_vars(env, let_names(*bindings)));
        },
        Exp::If { cond, thn, els, .. } => {
            lemma_checked_scoped(cond, env);
            lemma_checked_scoped(thn, env);
            lemma_checked_scoped(els, env);
        },
        Exp::FunDefs { decls, body, .. } => {
            let ts = decl_terms(*decls);
            let env1 = with_funs(env, *decls);
            assert(scope_funs(env, ts) =~= env1);
            assert forall|i: int| 0 <= i < ts.len() implies (#[trigger] ts[i]).params.len()
                <= usize::MAX && scoped(
                ts[i].body,
                with_vars(scope_funs(env, ts), ts[i].params),
            ) by {
                lemma_decls_error_none(decls, decls.len() as nat, env1, i);
                assert(ts[i].params.len() == decls[i].parameters.len());
                lemma_checked_scoped(
                    &decls[i].body,
                    with_vars(env1, names_of(decls[i].parameters@)),
                );
            }
            lemma_checked_scoped(body, env1);
        },
        Exp::Call(_, args, _) => {
            let ts = terms(*args);
            assert forall|i: int| 0 <= i < ts.len() implies scoped(#[trigger] ts[i], env) by {
                lemma_args_error_none(args, args.len() as nat, env, i);
                lemma_checked_scoped(&args[i], env);
            }
        },
        Exp::InternalTailCall(_, args, _) => {
            let ts = terms(*args);
            assert forall|i: int| 0 <= i < ts.len() implies scoped(#[trigger] ts[i], env) by {
                lemma_args_error_none(args, args.len() as nat, env, i);
                lemma_checked_scoped(&args[i], env);
            }
        },
        Exp::ExternalCall { args, .. } => {
            let ts = terms(*args);
            assert forall|i: int| 0 <= i < ts.len() implies scoped(#[trigger] ts[i], env) by {
                lemma_args_error_none(args, args.len() as nat, env, i);
                lemma_checked_scoped(&args[i], env);
            }
        },
    }
}

/// The arguments of a call are renamed one by one, each with the counter
/// that the arguments before it leave.
pub proof fn lemma_uniq_args_index(args: Seq<Term>, m: Renaming, c: nat)
    ensures
        uniq_args(args, m, c).len() == args.len(),
        forall|i: int|
            0 <= i < args.len() ==> #[trigger] uniq_args(args, m, c)[i] == uniq(
                args[i],
                m,
                c + args_binders(args.take(i)),
            ),
    decreases args.len(),
{
    if args.len() > 0 {
        let dl = args.drop_last();
        lemma_uniq_args_index(dl, m, c);
        assert forall|i: int| 0 <= i < args.len() implies #[trigger] uniq_args(args, m, c)[i]
            == uniq(args[i], m, c + args_binders(args.take(i))) by {
            if i < args.len() - 1 {
                assert(dl.take(i) =~= args.take(i));
            } else {
                assert(args.take(i) =~= dl);
            }
        }
    }
}

/// The fresh name of the binding at `i` of a `let`.
pub open spec fn binding_name(bs: Seq<(Name, Term)>, c: nat, i: int) -> Name {
    decimal(c + bindings_binders(bs.take(i)) + 1)
}

/// The fresh names of the bindings of a `let`.
pub open spec fn binding_names_of(bs: Seq<(Name, Term)>, c: nat) -> Seq<Name> {
    Seq::new(bs.len(), |j: int| binding_name(bs, c, j))
}

/// Names paired with the names that stand for them.
pub open spec fn zip_names(xs: Seq<Name>, ns: Seq<Name>) -> Renaming {
    Seq::new(xs.len(), |j: int| (xs[j], ns[j]))
}

/// The substitution after the bindings of a `let` pairs each bound name with
/// its fresh name.
pub proof fn lemma_let_scope(bs: Seq<(Name, Term)>, m: Renaming, c: nat)
    ensures
        let_scope(bs, m, c) == m + zip_names(bound_names(bs), binding_names_of(bs, c)),
    decreases bs.len(),
{
    if bs.len() == 0 {
        assert(m + zip_names(bound_names(bs), binding_names_of(bs, c)) =~= m);
    } else {
        let dl = bs.drop_last();
        lemma_let_scope(dl, m, c);
        assert forall|j: int| 0 <= j < dl.len() implies binding_name(dl, c, j) == binding_name(
            bs,
            c,
            j,
        ) by {
            assert(dl.take(j) =~= bs.take(j));
        }
        assert(bs.take(bs.len() - 1) =~= dl);
        assert(let_scope(bs, m, c) =~= m + zip_names(bound_names(bs), binding_names_of(bs, c)));
    }
}

/// The bindings of a `let` are renamed one by one.
pub proof fn lemma_uniq_bindings_index(bs: Seq<(Name, Term)>, m: Renaming, c: nat)
    ensures
        uniq_bindings(bs, m, c).len() == bs.len(),
        bound_names(uniq_bindings(bs, m, c)) == binding_names_of(bs, c),
        forall|i: int|
            0 <= i < bs.len() ==> (#[trigger] uniq_bindings(bs, m, c)[i]).1 == uniq(
                bs[i].1,
                let_scope(bs.take(i), m, c),
                c + bindings_binders(bs.take(i)) + 1,
            ),
    decreases bs.len(),
{
    if bs.len() == 0 {
        assert(bound_names(uniq_bindings(bs, m, c)) =~= binding_names_of(bs, c));
    } else {
        let dl = bs.drop_last();
        lemma_uniq_bindings_index(dl, m, c);
        assert(bs.take(bs.len() - 1) =~= dl);
        assert forall|i: int| 0 <= i < bs.len() implies (#[trigger] uniq_bindings(bs, m, c)[i]).1
            == uniq(
            bs[i].1,
            let_scope(bs.take(i), m, c),
            c + bindings_binders(bs.take(i)) + 1,
        ) && uniq_bindings(bs, m, c)[i].0 == binding_name(bs, c, i) by {
            if i < bs.len() - 1 {
                assert(dl.take(i) =~= bs.take(i));
                assert(bound_names(uniq_bindings(dl, m, c))[i] == binding_name(dl, c, i));
            }
        }
        assert(bound_names(uniq_bindings(bs, m, c)) =~= binding_names_of(bs, c));
    }
}

/// The declarations of a group are renamed one by one.
pub proof fn lemma_uniq_decls_index(ds: Seq<FunTerm>, m: Renaming, c: nat, base: nat)
    ensures
        uniq_decls(ds, m, c, base).len() == ds.len(),
        forall|i: int|
            0 <= i < ds.len() ==> #[trigger] uniq_decls(ds, m, c, base)[i] == (FunTerm {
                name: decimal((base + i + 1) as nat),
                params: fresh_names(c + decls_binders(ds.take(i)), ds[i].params.len()),
                body: uniq(
                    ds[i].body,
                    extend(m, ds[i].params, c + decls_binders(ds.take(i))),
                    c + decls_binders(ds.take(i)) + ds[i].params.len(),
                ),
            }),
    decreases ds.len(),
{
    if ds.len() > 0 {
        let dl = ds.drop_last();
        lemma_uniq_decls_index(dl, m, c, base);
        assert forall|i: int| 0 <= i < ds.len() implies #[trigger] uniq_decls(ds, m, c, base)[i]
            == (FunTerm {
            name: decimal((base + i + 1) as nat),
            params: fresh_names(c + decls_binders(ds.take(i)), ds[i].params.len()),
            body: uniq(
                ds[i].body,
                extend(m, ds[i].params, c + decls_binders(ds.take(i))),
                c + decls_binders(ds.take(i)) + ds[i].params.len(),
            ),
        }) by {
            if i < ds.len() - 1 {
                assert(dl.take(i) =~= ds.take(i));
            } else {
                assert(ds.take(i) =~= dl);
            }
        }
    }
}

/// Whether the substitution `m` sends every name that `env` binds as a
/// variable to a name in `sc`.
pub open spec fn renames_vars(env: Scope, m: Renaming, sc: Seq<Name>) -> bool {
    forall|x: Name| lookup(env, x) == Some(Kind::Var) ==> has_name(sc, #[trigger] rename(m, x))
}

/// Binding one more variable keeps the substitution in step with the scope.
pub proof fn lemma_renames_vars_push(env: Scope, m: Renaming, sc: Seq<Name>, x: Name, n: Name)
    requires
        renames_vars(env, m, sc),
    ensures
        renames_vars(env.push((x, Kind::Var)), m.push((x, n)), sc.push(n)),
{
    let env1 = env.push((x, Kind::Var));
    let m1 = m.push((x, n));
    assert(keys(env1) =~= keys(env).push(x));
    assert(keys(m1) =~= keys(m).push(x));
    assert(keys(env1).drop_last() =~= keys(env));
    assert(keys(m1).drop_last() =~= keys(m));
    assert forall|y: Name| lookup(env1, y) == Some(Kind::Var) implies has_name(
        sc.push(n),
        #[trigger] rename(m1, y),
    ) by {
        lemma_index_of(keys(env), y);
        lemma_index_of(keys(m), y);
        lemma_has_name_push(sc, n, rename(m1, y));
        if y != x {
            assert(lookup(env, y) == Some(Kind::Var));
            assert(rename(m1, y) == rename(m, y));
        }
    }
}

/// Binding one more function keeps the substitution in step with the scope.
pub proof fn lemma_renames_vars_fun(
    env: Scope,
    m: Renaming,
    sc: Seq<Name>,
    f: Name,
    arity: usize,
    n: Name,
)
    requires
        renames_vars(env, m, sc),
    ensures
        renames_vars(env.push((f, Kind::Fun(arity))), m.push((f, n)), sc),
{
    let env1 = env.push((f, Kind::Fun(arity)));
    let m1 = m.push((f, n));
    assert(keys(env1) =~= keys(env).push(f));
    assert(keys(m1) =~= keys(m).push(f));
    assert(keys(env1).drop_last() =~= keys(env));
    assert(keys(m1).drop_last() =~= keys(m));
    assert forall|y: Name| lookup(env1, y) == Some(Kind::Var) implies has_name(
        sc,
        #[trigger] rename(m1, y),
    ) by {
        lemma_index_of(keys(env), y);
        lemma_index_of(keys(m), y);
        if y != f {
            assert(lookup(env, y) == Some(Kind::Var));
            assert(rename(m1, y) == rename(m, y));
        }
    }
}

/// Binding variables keeps the substitution in step with the scope.
pub proof fn lemma_renames_vars_all(
    env: Scope,
    m: Renaming,
    sc: Seq<Name>,
    xs: Seq<Name>,
    ns: Seq<Name>,
)
    requires
        renames_vars(env, m, sc),
        xs.len() == ns.len(),
    ensures
        renames_vars(with_vars(env, xs), m + zip_names(xs, ns), sc + ns),
    decreases xs.len(),
{
    if xs.len() == 0 {
        assert(with_vars(env, xs) =~= env);
        assert(m + zip_names(xs, ns) =~= m);
        assert(sc + ns =~= sc);
    } else {
        let xd = xs.drop_last();
        let nd = ns.drop_last();
        lemma_renames_vars_all(env, m, sc, xd, nd);
        lemma_renames_vars_push(
            with_vars(env, xd),
            m + zip_names(xd, nd),
            sc + nd,
            xs.last(),
            ns.last(),
        );
        assert(with_vars(env, xs) =~= with_vars(env, xd).push((xs.last(), Kind::Var)));
        assert(m + zip_names(xs, ns) =~= (m + zip_names(xd, nd)).push((xs.last(), ns.last())));
        assert(sc + ns =~= (sc + nd).push(ns.last()));
    }
}

/// Binding the functions of a group keeps the substitution in step with the
/// scope.
pub proof fn lemma_renames_vars_funs(
    env: Scope,
    m: Renaming,
    sc: Seq<Name>,
    ds: Seq<FunTerm>,
    ns: Seq<Name>,
)
    requires
        renames_vars(env, m, sc),
        ds.len() == ns.len(),
    ensures
        renames_vars(scope_funs(env, ds), m + zip_names(decl_names(ds), ns), sc),
    decreases ds.len(),
{
    if ds.len() == 0 {
        assert(scope_funs(env, ds) =~= env);
        assert(m + zip_names(decl_names(ds), ns) =~= m);
    } else {
        let dd = ds.drop_last();
        let nd = ns.drop_last();
        lemma_renames_vars_funs(env, m, sc, dd, nd);
        lemma_renames_vars_fun(
            scope_funs(env, dd),
            m + zip_names(decl_names(dd), nd),
            sc,
            ds.last().name,
            ds.last().params.len() as usize,
            ns.last(),
        );
        assert(scope_funs(env, ds) =~= scope_funs(env, dd).push(
            (ds.last().name, Kind::Fun(ds.last().params.len() as usize)),
        ));
        assert(m + zip_names(decl_names(ds), ns) =~= (m + zip_names(decl_names(dd), nd)).push(
            (ds.last().name, ns.last()),
        ));
    }
}

/// A renamed expression can be lifted: where every variable of an
/// expression that a text can spell is bound, and the substitution sends
/// the variables in scope to names in `sc`, every variable of the renamed
/// expression is in `sc` or bound in the expression.
pub proof fn lemma_uniq_liftable(t: Term, env: Scope, m: Renaming, sc: Seq<Name>, c: nat)
    requires
        scoped(t, env),
        surface(t),
        renames_vars(env, m, sc),
    ensures
        liftable(uniq(t, m, c), sc, Seq::empty()),
    decreases t,
{
    let none: FunTable = Seq::empty();
    match t {
        Term::Num(_) => {},
        Term::Bool(_) => {},
        Term::Var(x) => {},
        Term::Prim(p, args) => {
            lemma_uniq_args_index(args, m, c);
            let us = uniq_args(args, m, c);
            assert forall|i: int| 0 <= i < us.len() implies liftable(#[trigger] us[i], sc, none) by {
                lemma_uniq_liftable(args[i], env, m, sc, c + args_binders(args.take(i)));
            }
        },
        Term::Let(bs, body) => {
            lemma_uniq_bindings_index(bs, m, c);
            lemma_let_scope(bs, m, c);
            let ub = uniq_bindings(bs, m, c);
            let ns = binding_names_of(bs, c);
            assert forall|i: int| 0 <= i < ub.len() implies liftable(
                (#[trigger] ub[i]).1,
                sc + bound_names(ub).take(i),
                none,
            ) by {
                let part = bs.take(i);
                lemma_let_scope(part, m, c);
                assert(bound_names(part) =~= bound_names(bs).take(i));
                assert(binding_names_of(part, c) =~= ns.take(i)) by {
                    assert forall|j: int| 0 <= j < i implies binding_name(part, c, j)
                        == binding_name(bs, c, j) by {
                        assert(part.take(j) =~= bs.take(j));
                    }
                }
                lemma_renames_vars_all(env, m, sc, bound_names(part), ns.take(i));
                lemma_uniq_liftable(
                    bs[i].1,
                    with_vars(env, bound_names(bs).take(i)),
                    let_scope(part, m, c),
                    sc + ns.take(i),
                    c + bindings_binders(part) + 1,
                );
            }
            lemma_renames_vars_all(env, m, sc, bound_names(bs), ns);
            lemma_uniq_liftable(
                *body,
                with_vars(env, bound_names(bs)),
                let_scope(bs, m, c),
                sc + ns,
                c + bindings_binders(bs),
            );
        },
        Term::If(cond, a, b) => {
            lemma_uniq_liftable(*cond, env, m, sc, c);
            lemma_uniq_liftable(*a, env, m, sc, c + binders(*cond));
            lemma_uniq_liftable(*b, env, m, sc, c + binders(*cond) + binders(*a));
        },
        Term::FunDefs(ds, body) => {
            let inner = extend(m, decl_names(ds), c);
            let env1 = scope_funs(env, ds);
            let c1 = c + ds.len();
            lemma_uniq_decls_index(ds, inner, c1, c);
            lemma_renames_vars_funs(env, m, sc, ds, fresh_names(c, ds.len()));
            assert(inner =~= m + zip_names(decl_names(ds), fresh_names(c, ds.len())));
            let ud = uniq_decls(ds, inner, c1, c);
            assert forall|i: int| 0 <= i < ud.len() implies liftable(
                (#[trigger] ud[i]).body,
                sc + ud[i].params,
                none,
            ) by {
                let cb = c1 + decls_binders(ds.take(i));
                let n = ds[i].params.len();
                lemma_renames_vars_all(env1, inner, sc, ds[i].params, fresh_names(cb, n));
                assert(extend(inner, ds[i].params, cb) =~= inner + zip_names(
                    ds[i].params,
                    fresh_names(cb, n),
                ));
                lemma_uniq_liftable(
                    ds[i].body,
                    with_vars(env1, ds[i].params),
                    extend(inner, ds[i].params, cb),
                    sc + fresh_names(cb, n),
                    cb + n,
                );
            }
            lemma_uniq_liftable(*body, env1, inner, sc, c1 + decls_binders(ds));
        },
        Term::Call(f, args) => {
            lemma_uniq_args_index(args, m, c);
            let us = uniq_args(args, m, c);
            assert forall|i: int| 0 <= i < us.len() implies liftable(#[trigger] us[i], sc, none) by {
                lemma_uniq_liftable(args[i], env, m, sc, c + args_binders(args.take(i)));
            }
            assert(extras(none, rename(m, f)) =~= Seq::<Name>::empty());
        },
        Term::InternalTailCall(_, _) => {},
        Term::ExternalCall(_, _, _) => {},
    }
}

} // verus!
