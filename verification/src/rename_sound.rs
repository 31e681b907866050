//! Renaming keeps the meaning: a program whose bindings were renamed
//! apart prints the same and comes to the same value or the same error
//! as the program itself.

use crate::checker::{Kind, Scope, with_vars};
use crate::interp::{bind_params, EnvView, SnakeVal};
use crate::lambda_lift::bound_names;
use crate::lift_sound::{arities, lemma_beval_args_len, lemma_bind_fresh, lemma_bind_other};
use crate::lift_sound::lemma_lookup_keys;
use crate::names::{decimal, has_name, index_of, keys, lemma_decimal_injective, lemma_index_of};
use crate::names::lookup;
use crate::scopes::{binding_names_of, lemma_has_name_concat, lemma_index_of_concat};
use crate::scopes::{lemma_let_scope, lemma_uniq_args_index, lemma_uniq_bindings_index};
use crate::scopes::{lemma_uniq_decls_index, scope_funs, scoped, surface, zip_names};
use crate::semantics::{beval, beval_args, beval_bindings, Clo, closure_fault, FunEnv, group_env};
use crate::semantics::{Res, ResEnv, ResList};
use crate::syntax::{FunTerm, Name, Term};
use crate::tidy::{fresh, fun_arity, group_arities, lemma_uniq_tidy, tidy};
use crate::uniquify::{args_binders, binders, bindings_binders, decl_names, decls_binders, extend};
use crate::uniquify::{fresh_names, let_scope, rename, Renaming, uniq, uniq_args, uniq_bindings};
use crate::uniquify::{uniq_decls, uniquify_term};
use crate::uniquify_laws::lemma_decl_names;
use vstd::prelude::*;

verus! {

/// Where a group of functions was renamed: the scope and the substitution
/// around it, the counter for what its functions bind, and the number
/// before its own names.
pub ghost struct Site {
    pub scope: Scope,
    pub m: Renaming,
    pub c: nat,
    pub base: nat,
}

/// Whether the renamed environment binds the name that stands for a
/// variable in scope to what the environment binds the variable to.
pub open spec fn vars_rel(scope: Scope, m: Renaming, env: EnvView, env2: EnvView) -> bool {
    forall|x: Name|
        #[trigger] lookup(scope, x) == Some(Kind::Var) ==> lookup(env, x) is Some && lookup(
            env2,
            rename(m, x),
        ) == lookup(env, x)
}

/// The place of the function that a name finds, or -1.
pub open spec fn place(fenv: FunEnv, f: Name) -> int {
    index_of(keys(fenv), f)
}

/// Whether the name that stands for a function in scope finds the renamed
/// function at the place of the function.
pub open spec fn funs_rel(scope: Scope, m: Renaming, fenv: FunEnv, fenv2: FunEnv) -> bool {
    forall|f: Name|
        (#[trigger] fun_arity(scope, f)) is Some ==> place(fenv, f) >= 0 && place(
            fenv2,
            rename(m, f),
        ) == place(fenv, f)
}

/// Whether the second closure is the first one renamed at the site `s`,
/// but for the functions that they see.
pub open spec fn renamed_at(cl: Clo, cl2: Clo, s: Site) -> bool {
    &&& cl2.index == cl.index
    &&& cl.index < cl.group.len()
    &&& cl2.group == uniq_decls(
        cl.group,
        extend(s.m, decl_names(cl.group), s.base),
        s.c,
        s.base,
    )
    &&& forall|i: int|
        0 <= i < cl.group.len() ==> scoped(
            (#[trigger] cl.group[i]).body,
            with_vars(scope_funs(s.scope, cl.group), cl.group[i].params),
        )
    &&& forall|i: int|
        0 <= i < cl2.group.len() ==> fresh((#[trigger] cl2.group[i]).params, keys(cl2.env))
            && tidy(
            cl2.group[i].body,
            keys(cl2.env) + cl2.group[i].params,
            arities(cl2.fenv) + group_arities(cl2.group),
        )
    &&& fresh(decl_names(cl2.group), keys(cl2.fenv))
    &&& vars_rel(s.scope, s.m, cl.env, cl2.env)
    &&& funs_rel(s.scope, s.m, cl.fenv, cl2.fenv)
}

/// Whether the second closure is the first one renamed, and the
/// functions that it sees are those that the first sees, renamed.
pub open spec fn clo_rel(cl: Clo, cl2: Clo) -> bool
    decreases cl,
{
    &&& exists|s: Site| renamed_at(cl, cl2, s)
    &&& cl.fenv.len() == cl2.fenv.len()
    &&& forall|k: int|
        0 <= k < cl.fenv.len() ==> clo_rel((#[trigger] cl.fenv[k]).1, cl2.fenv[k].1)
}

/// Whether the renamed functions in scope are the functions in scope,
/// renamed, place by place.
pub open spec fn world_rel(fenv: FunEnv, fenv2: FunEnv) -> bool {
    &&& fenv.len() == fenv2.len()
    &&& forall|k: int| 0 <= k < fenv.len() ==> clo_rel((#[trigger] fenv[k]).1, fenv2[k].1)
}

/// A name among names beside which others are fresh is not among the
/// others.
pub proof fn lemma_fresh_not_in(ns: Seq<Name>, vs: Seq<Name>, x: Name)
    requires
        fresh(ns, vs),
        has_name(vs, x),
    ensures
        !has_name(ns, x),
{
    lemma_index_of(ns, x);
    let i = index_of(ns, x);
    if i >= 0 {
        lemma_has_name_concat(vs, ns.take(i), ns[i]);
    }
}

/// Binding parameters keeps the renamed environment in step.
pub proof fn lemma_vars_rel_params(
    scope: Scope,
    m: Renaming,
    env: EnvView,
    env2: EnvView,
    xs: Seq<Name>,
    ns: Seq<Name>,
    vs: Seq<SnakeVal>,
)
    requires
        vars_rel(scope, m, env, env2),
        xs.len() == ns.len(),
        xs.len() == vs.len(),
        fresh(ns, keys(env2)),
    ensures
        vars_rel(
            with_vars(scope, xs),
            m + zip_names(xs, ns),
            bind_params(env, xs, vs),
            bind_params(env2, ns, vs),
        ),
{
    let scope1 = with_vars(scope, xs);
    let m1 = m + zip_names(xs, ns);
    let env1 = bind_params(env, xs, vs);
    let env3 = bind_params(env2, ns, vs);
    assert(keys(scope1) =~= keys(scope) + xs);
    assert(keys(m1) =~= keys(m) + xs);
    assert(keys(env1) =~= keys(env) + xs);
    assert forall|x: Name| #[trigger]
        lookup(scope1, x) == Some(Kind::Var) implies lookup(env1, x) is Some && lookup(
        env3,
        rename(m1, x),
    ) == lookup(env1, x) by {
        lemma_index_of_concat(keys(scope), xs, x);
        lemma_index_of_concat(keys(m), xs, x);
        lemma_index_of_concat(keys(env), xs, x);
        lemma_index_of(keys(scope), x);
        lemma_index_of(keys(m), x);
        lemma_index_of(keys(env), x);
        lemma_index_of(xs, x);
        let j = index_of(xs, x);
        if j >= 0 {
            assert(m1[keys(m).len() + j].1 == ns[j]);
            assert(env1[keys(env).len() + j].1 == vs[j]);
            lemma_bind_fresh(env2, ns, vs, j);
        } else {
            let y = rename(m, x);
            assert(rename(m1, x) == y);
            assert(lookup(scope, x) == Some(Kind::Var));
            assert(lookup(env2, y) == lookup(env, x));
            lemma_lookup_keys(env2, y);
            lemma_fresh_not_in(ns, keys(env2), y);
            lemma_bind_other(env2, ns, vs, y);
            lemma_bind_other(env, xs, vs, x);
        }
    }
}

/// Binding one more variable keeps the renamed environment in step.
pub proof fn lemma_vars_rel_push(
    scope: Scope,
    m: Renaming,
    env: EnvView,
    env2: EnvView,
    x: Name,
    x2: Name,
    v: SnakeVal,
)
    requires
        vars_rel(scope, m, env, env2),
        !has_name(keys(env2), x2),
    ensures
        vars_rel(
            scope.push((x, Kind::Var)),
            m.push((x, x2)),
            env.push((x, v)),
            env2.push((x2, v)),
        ),
        keys(env2.push((x2, v))) == keys(env2).push(x2),
{
    let one = Seq::<Name>::empty().push(x);
    let one2 = Seq::<Name>::empty().push(x2);
    let val = Seq::<SnakeVal>::empty().push(v);
    assert(fresh(one2, keys(env2))) by {
        assert(one2.take(0) =~= Seq::<Name>::empty());
        assert(keys(env2) + one2.take(0) =~= keys(env2));
    }
    lemma_vars_rel_params(scope, m, env, env2, one, one2, val);
    assert(with_vars(scope, one) =~= scope.push((x, Kind::Var)));
    assert(m + zip_names(one, one2) =~= m.push((x, x2)));
    assert(bind_params(env, one, val) =~= env.push((x, v)));
    assert(bind_params(env2, one2, val) =~= env2.push((x2, v)));
    assert(keys(env2.push((x2, v))) =~= keys(env2).push(x2));
}

/// Bringing a group of functions into scope keeps the renamed
/// environment in step.
pub proof fn lemma_vars_rel_funs(
    scope: Scope,
    m: Renaming,
    env: EnvView,
    env2: EnvView,
    ds: Seq<FunTerm>,
    c: nat,
)
    requires
        vars_rel(scope, m, env, env2),
    ensures
        vars_rel(scope_funs(scope, ds), extend(m, decl_names(ds), c), env, env2),
{
    let names = decl_names(ds);
    let scope1 = scope_funs(scope, ds);
    let m1 = extend(m, names, c);
    assert(keys(scope1) =~= keys(scope) + names);
    assert(keys(m1) =~= keys(m) + names);
    assert forall|x: Name| #[trigger]
        lookup(scope1, x) == Some(Kind::Var) implies lookup(env, x) is Some && lookup(
        env2,
        rename(m1, x),
    ) == lookup(env, x) by {
        lemma_index_of_concat(keys(scope), names, x);
        lemma_index_of_concat(keys(m), names, x);
        lemma_index_of(keys(scope), x);
        lemma_index_of(keys(m), x);
        lemma_index_of(names, x);
        let j = index_of(names, x);
        if j >= 0 {
            assert(scope1[keys(scope).len() + j].1 == Kind::Fun(ds[j].params.len() as usize));
        } else {
            assert(rename(m1, x) == rename(m, x));
            assert(lookup(scope, x) == Some(Kind::Var));
            assert(lookup(env2, rename(m, x)) == lookup(env, x));
        }
    }
}

/// Binding variables keeps the renamed functions in step.
pub proof fn lemma_funs_rel_vars(
    scope: Scope,
    m: Renaming,
    fenv: FunEnv,
    fenv2: FunEnv,
    xs: Seq<Name>,
    ns: Seq<Name>,
)
    requires
        funs_rel(scope, m, fenv, fenv2),
    ensures
        funs_rel(with_vars(scope, xs), m + zip_names(xs, ns), fenv, fenv2),
{
    let scope1 = with_vars(scope, xs);
    let m1 = m + zip_names(xs, ns);
    assert(keys(scope1) =~= keys(scope) + xs);
    assert(keys(m1) =~= keys(m) + xs);
    assert forall|f: Name| (#[trigger] fun_arity(scope1, f)) is Some implies place(fenv, f) >= 0
        && place(fenv2, rename(m1, f)) == place(fenv, f) by {
        lemma_index_of_concat(keys(scope), xs, f);
        lemma_index_of_concat(keys(m), xs, f);
        lemma_index_of(keys(scope), f);
        lemma_index_of(keys(m), f);
        lemma_index_of(xs, f);
        let j = index_of(xs, f);
        if j >= 0 {
            assert(scope1[keys(scope).len() + j].1 == Kind::Var);
        } else {
            assert(rename(m1, f) == rename(m, f));
            assert(fun_arity(scope, f) is Some);
            assert(place(fenv2, rename(m, f)) == place(fenv, f));
        }
    }
}

/// Bringing a group and the renamed group into scope keeps the renamed
/// functions in step.
pub proof fn lemma_funs_rel_group(
    scope: Scope,
    m: Renaming,
    fenv: FunEnv,
    fenv2: FunEnv,
    env: EnvView,
    env2: EnvView,
    ds: Seq<FunTerm>,
    us: Seq<FunTerm>,
    c: nat,
)
    requires
        funs_rel(scope, m, fenv, fenv2),
        fenv.len() == fenv2.len(),
        us.len() == ds.len(),
        decl_names(us) == fresh_names(c, ds.len()),
        fresh(decl_names(us), keys(fenv2)),
    ensures
        funs_rel(
            scope_funs(scope, ds),
            extend(m, decl_names(ds), c),
            group_env(env, fenv, ds),
            group_env(env2, fenv2, us),
        ),
{
    let names = decl_names(ds);
    let ns = fresh_names(c, ds.len());
    let scope1 = scope_funs(scope, ds);
    let m1 = extend(m, names, c);
    let fenv1 = group_env(env, fenv, ds);
    let fenv3 = group_env(env2, fenv2, us);
    assert(keys(scope1) =~= keys(scope) + names);
    assert(keys(m1) =~= keys(m) + names);
    assert(keys(fenv1) =~= keys(fenv) + names);
    assert(keys(fenv3) =~= keys(fenv2) + ns) by {
        assert forall|i: int| 0 <= i < us.len() implies keys(fenv3)[fenv2.len() + i] == ns[i] by {
            assert(decl_names(us)[i] == us[i].name);
        }
    }
    assert forall|f: Name| (#[trigger] fun_arity(scope1, f)) is Some implies place(fenv1, f) >= 0
        && place(fenv3, rename(m1, f)) == place(fenv1, f) by {
        lemma_index_of_concat(keys(scope), names, f);
        lemma_index_of_concat(keys(m), names, f);
        lemma_index_of_concat(keys(fenv), names, f);
        lemma_index_of(keys(scope), f);
        lemma_index_of(keys(m), f);
        lemma_index_of(keys(fenv), f);
        lemma_index_of(names, f);
        let j = index_of(names, f);
        let g = rename(m1, f);
        lemma_index_of_concat(keys(fenv2), ns, g);
        lemma_index_of(keys(fenv2), g);
        lemma_index_of(ns, g);
        if j >= 0 {
            assert(m1[keys(m).len() + j].1 == decimal((c + j + 1) as nat));
            assert(ns[j] == g);
            assert(ns.contains(g));
            let i = index_of(ns, g);
            lemma_decimal_injective((c + i + 1) as nat, (c + j + 1) as nat);
        } else {
            assert(g == rename(m, f));
            assert(fun_arity(scope, f) is Some);
            assert(place(fenv2, g) == place(fenv, f));
            lemma_fresh_not_in(ns, keys(fenv2), g);
        }
    }
}

/// The functions in scope with a group and the renamed group: they are
/// still the same, renamed, place by place.
pub proof fn lemma_world_rel_group(
    env: EnvView,
    fenv: FunEnv,
    ds: Seq<FunTerm>,
    env2: EnvView,
    fenv2: FunEnv,
    us: Seq<FunTerm>,
    s: Site,
)
    requires
        world_rel(fenv, fenv2),
        ds.len() == us.len(),
        ds.len() > 0 ==> renamed_at(
            Clo { env, fenv, group: ds, index: 0 },
            Clo { env: env2, fenv: fenv2, group: us, index: 0 },
            s,
        ),
    ensures
        world_rel(group_env(env, fenv, ds), group_env(env2, fenv2, us)),
        arities(group_env(env2, fenv2, us)) == arities(fenv2) + group_arities(us),
{
    let fenv1 = group_env(env, fenv, ds);
    let fenv3 = group_env(env2, fenv2, us);
    assert(arities(fenv3) =~= arities(fenv2) + group_arities(us));
    assert forall|k: int| 0 <= k < fenv1.len() implies clo_rel(
        (#[trigger] fenv1[k]).1,
        fenv3[k].1,
    ) by {
        if k < fenv.len() {
            assert(fenv1[k] == fenv[k]);
            assert(fenv3[k] == fenv2[k]);
        } else {
            let j = k - fenv.len();
            let cl = Clo { env, fenv, group: ds, index: j as nat };
            let cl2 = Clo { env: env2, fenv: fenv2, group: us, index: j as nat };
            assert(fenv1[k].1 == cl);
            assert(fenv3[k].1 == cl2);
            assert(renamed_at(cl, cl2, s));
        }
    }
}

/// Renaming keeps the meaning of an expression: under variables and
/// functions that are those of the expression, renamed, the renamed
/// expression comes to what the expression comes to.
pub proof fn lemma_rename_sound(
    t: Term,
    scope: Scope,
    m: Renaming,
    c: nat,
    env: EnvView,
    fenv: FunEnv,
    env2: EnvView,
    fenv2: FunEnv,
    fuel: nat,
    out: Seq<char>,
)
    requires
        scoped(t, scope),
        tidy(uniq(t, m, c), keys(env2), arities(fenv2)),
        vars_rel(scope, m, env, env2),
        funs_rel(scope, m, fenv, fenv2),
        world_rel(fenv, fenv2),
    ensures
        beval(uniq(t, m, c), env2, fenv2, fuel, out) == beval(t, env, fenv, fuel, out),
    decreases fuel, t, 1nat,
{
    match t {
        Term::Num(_) | Term::Bool(_) => {},
        Term::Var(x) => {
            assert(lookup(scope, x) == Some(Kind::Var));
        },
        Term::Prim(p, args) => {
            lemma_uniq_args_index(args, m, c);
            lemma_rename_args_sound(args, scope, m, c, env, fenv, env2, fenv2, fuel, out);
        },
        Term::Let(bs, body) => {
            let us = uniq_bindings(bs, m, c);
            let names = bound_names(bs);
            lemma_uniq_bindings_index(bs, m, c);
            lemma_rename_bindings_sound(bs, scope, m, c, env, fenv, env2, fenv2, fuel, out);
            match beval_bindings(bs, env, fenv, fuel, out) {
                ResEnv::Fail(_, _) => {},
                ResEnv::Done(env1, o) => {
                    let env3 = beval_bindings(us, env2, fenv2, fuel, out)->Done_0;
                    lemma_let_scope(bs, m, c);
                    lemma_funs_rel_vars(scope, m, fenv, fenv2, names, binding_names_of(bs, c));
                    lemma_rename_sound(
                        *body,
                        with_vars(scope, names),
                        let_scope(bs, m, c),
                        c + bindings_binders(bs),
                        env1,
                        fenv,
                        env3,
                        fenv2,
                        fuel,
                        o,
                    );
                },
            }
        },
        Term::If(cond, a, b) => {
            let c1 = c + binders(*cond);
            let c2 = c1 + binders(*a);
            lemma_rename_sound(*cond, scope, m, c, env, fenv, env2, fenv2, fuel, out);
            match beval(*cond, env, fenv, fuel, out) {
                Res::Fail(_, _) => {},
                Res::Done(_, o) => {
                    lemma_rename_sound(*a, scope, m, c1, env, fenv, env2, fenv2, fuel, o);
                    lemma_rename_sound(*b, scope, m, c2, env, fenv, env2, fenv2, fuel, o);
                },
            }
        },
        Term::FunDefs(ds, body) => {
            lemma_rename_group_sound(ds, *body, scope, m, c, env, fenv, env2, fenv2, fuel, out);
        },
        Term::Call(f, args) => {
            lemma_rename_call_sound(f, args, scope, m, c, env, fenv, env2, fenv2, fuel, out);
        },
        Term::InternalTailCall(_, _) => {},
        Term::ExternalCall(_, _, _) => {},
    }
}

/// Renaming keeps the values of a list of arguments.
pub proof fn lemma_rename_args_sound(
    args: Seq<Term>,
    scope: Scope,
    m: Renaming,
    c: nat,
    env: EnvView,
    fenv: FunEnv,
    env2: EnvView,
    fenv2: FunEnv,
    fuel: nat,
    out: Seq<char>,
)
    requires
        forall|i: int| 0 <= i < args.len() ==> scoped(#[trigger] args[i], scope),
        uniq_args(args, m, c).len() == args.len(),
        forall|i: int|
            0 <= i < args.len() ==> tidy(
                #[trigger] uniq_args(args, m, c)[i],
                keys(env2),
                arities(fenv2),
            ),
        vars_rel(scope, m, env, env2),
        funs_rel(scope, m, fenv, fenv2),
        world_rel(fenv, fenv2),
    ensures
        beval_args(uniq_args(args, m, c), env2, fenv2, fuel, out) == beval_args(
            args,
            env,
            fenv,
            fuel,
            out,
        ),
    decreases fuel, args, 0nat,
{
    if args.len() > 0 {
        let dl = args.drop_last();
        let us = uniq_args(args, m, c);
        let ud = uniq_args(dl, m, c);
        let cd = c + args_binders(dl);
        assert(us.drop_last() =~= ud);
        assert(us.last() == uniq(args.last(), m, cd));
        lemma_uniq_args_index(dl, m, c);
        assert forall|i: int| 0 <= i < dl.len() implies scoped(#[trigger] dl[i], scope) by {
            assert(dl[i] == args[i]);
        }
        assert forall|i: int| 0 <= i < dl.len() implies tidy(
            #[trigger] ud[i],
            keys(env2),
            arities(fenv2),
        ) by {
            assert(ud[i] == us[i]);
        }
        lemma_rename_args_sound(dl, scope, m, c, env, fenv, env2, fenv2, fuel, out);
        assert(us[args.len() - 1] == us.last());
        assert(args[args.len() - 1] == args.last());
        match beval_args(dl, env, fenv, fuel, out) {
            ResList::Fail(_, _) => {},
            ResList::Done(_, o) => {
                lemma_rename_sound(args.last(), scope, m, cd, env, fenv, env2, fenv2, fuel, o);
            },
        }
    }
}

/// Renaming keeps what the bindings of a `let` bind: where they fail, so
/// do the renamed ones; where they are made, the renamed environment is
/// in step again.
pub proof fn lemma_rename_bindings_sound(
    bs: Seq<(Name, Term)>,
    scope: Scope,
    m: Renaming,
    c: nat,
    env: EnvView,
    fenv: FunEnv,
    env2: EnvView,
    fenv2: FunEnv,
    fuel: nat,
    out: Seq<char>,
)
    requires
        forall|i: int|
            0 <= i < bs.len() ==> scoped(
                (#[trigger] bs[i]).1,
                with_vars(scope, bound_names(bs).take(i)),
            ),
        uniq_bindings(bs, m, c).len() == bs.len(),
        fresh(bound_names(uniq_bindings(bs, m, c)), keys(env2)),
        forall|i: int|
            0 <= i < bs.len() ==> tidy(
                (#[trigger] uniq_bindings(bs, m, c)[i]).1,
                keys(env2) + bound_names(uniq_bindings(bs, m, c)).take(i),
                arities(fenv2),
            ),
        vars_rel(scope, m, env, env2),
        funs_rel(scope, m, fenv, fenv2),
        world_rel(fenv, fenv2),
    ensures
        match beval_bindings(bs, env, fenv, fuel, out) {
            ResEnv::Fail(f, o) => beval_bindings(uniq_bindings(bs, m, c), env2, fenv2, fuel, out)
                == ResEnv::Fail(f, o),
            ResEnv::Done(env1, o) => match beval_bindings(
                uniq_bindings(bs, m, c),
                env2,
                fenv2,
                fuel,
                out,
            ) {
                ResEnv::Fail(_, _) => false,
                ResEnv::Done(env3, o3) => o3 == o && keys(env3) == keys(env2) + bound_names(
                    uniq_bindings(bs, m, c),
                ) && vars_rel(with_vars(scope, bound_names(bs)), let_scope(bs, m, c), env1, env3),
            },
        },
    decreases fuel, bs, 0nat,
{
    let names = bound_names(bs);
    let us = uniq_bindings(bs, m, c);
    let ns = bound_names(us);
    if bs.len() == 0 {
        assert(with_vars(scope, names) =~= scope);
        assert(keys(env2) + ns =~= keys(env2));
    } else {
        let dl = bs.drop_last();
        let ud = uniq_bindings(dl, m, c);
        let nd = bound_names(dl);
        let cd = c + bindings_binders(dl);
        let x = bs.last().0;
        let x2 = decimal(cd + 1);
        let md = let_scope(dl, m, c);
        let scope_d = with_vars(scope, nd);
        assert(us.drop_last() =~= ud);
        assert(us.last() == (x2, uniq(bs.last().1, md, cd + 1)));
        assert(nd =~= names.take(bs.len() - 1));
        assert(bound_names(ud) =~= ns.take(bs.len() - 1));
        lemma_uniq_bindings_index(dl, m, c);
        assert forall|i: int| 0 <= i < dl.len() implies scoped(
            (#[trigger] dl[i]).1,
            with_vars(scope, nd.take(i)),
        ) by {
            assert(dl[i] == bs[i]);
            assert(nd.take(i) =~= names.take(i));
        }
        assert forall|i: int| 0 <= i < dl.len() implies tidy(
            (#[trigger] ud[i]).1,
            keys(env2) + bound_names(ud).take(i),
            arities(fenv2),
        ) by {
            assert(ud[i] == us[i]);
            assert(bound_names(ud).take(i) =~= ns.take(i));
        }
        assert(fresh(bound_names(ud), keys(env2))) by {
            assert forall|j: int| 0 <= j < ud.len() implies !has_name(
                keys(env2) + bound_names(ud).take(j),
                #[trigger] bound_names(ud)[j],
            ) by {
                assert(bound_names(ud).take(j) =~= ns.take(j));
                assert(bound_names(ud)[j] == ns[j]);
            }
        }
        lemma_rename_bindings_sound(dl, scope, m, c, env, fenv, env2, fenv2, fuel, out);
        assert(bs[bs.len() - 1] == bs.last());
        assert(us[bs.len() - 1] == us.last());
        assert(ns[bs.len() - 1] == x2);
        match beval_bindings(dl, env, fenv, fuel, out) {
            ResEnv::Fail(_, _) => {},
            ResEnv::Done(env1, o) => {
                let env3 = beval_bindings(ud, env2, fenv2, fuel, out)->Done_0;
                lemma_let_scope(dl, m, c);
                lemma_funs_rel_vars(scope, m, fenv, fenv2, nd, binding_names_of(dl, c));
                lemma_rename_sound(
                    bs.last().1,
                    scope_d,
                    md,
                    cd + 1,
                    env1,
                    fenv,
                    env3,
                    fenv2,
                    fuel,
                    o,
                );
                match beval(bs.last().1, env1, fenv, fuel, o) {
                    Res::Fail(_, _) => {},
                    Res::Done(v, o1) => {
                        assert(!has_name(keys(env3), x2));
                        lemma_vars_rel_push(scope_d, md, env1, env3, x, x2, v);
                        assert(with_vars(scope, names) =~= scope_d.push((x, Kind::Var)));
                        assert(ns =~= bound_names(ud).push(x2));
                    },
                }
            },
        }
    }
}

/// Renaming keeps the meaning of what stands in the scope of a group of
/// functions.
pub proof fn lemma_rename_group_sound(
    ds: Seq<FunTerm>,
    body: Term,
    scope: Scope,
    m: Renaming,
    c: nat,
    env: EnvView,
    fenv: FunEnv,
    env2: EnvView,
    fenv2: FunEnv,
    fuel: nat,
    out: Seq<char>,
)
    requires
        scoped(Term::FunDefs(ds, Box::new(body)), scope),
        tidy(uniq(Term::FunDefs(ds, Box::new(body)), m, c), keys(env2), arities(fenv2)),
        vars_rel(scope, m, env, env2),
        funs_rel(scope, m, fenv, fenv2),
        world_rel(fenv, fenv2),
    ensures
        beval(uniq(Term::FunDefs(ds, Box::new(body)), m, c), env2, fenv2, fuel, out) == beval(
            Term::FunDefs(ds, Box::new(body)),
            env,
            fenv,
            fuel,
            out,
        ),
    decreases fuel, Term::FunDefs(ds, Box::new(body)), 0nat,
{
    let n = ds.len();
    let inner = extend(m, decl_names(ds), c);
    let us = uniq_decls(ds, inner, c + n, c);
    let cn = c + n + decls_binders(ds);
    let body2 = uniq(body, inner, cn);
    assert(uniq(Term::FunDefs(ds, Box::new(body)), m, c) == Term::FunDefs(us, Box::new(body2)));
    lemma_decl_names(ds, inner, c + n, c);
    assert(keys(arities(fenv2)) =~= keys(fenv2));
    let s = Site { scope, m, c: c + n, base: c };
    lemma_world_rel_group(env, fenv, ds, env2, fenv2, us, s);
    lemma_vars_rel_funs(scope, m, env, env2, ds, c);
    lemma_funs_rel_group(scope, m, fenv, fenv2, env, env2, ds, us, c);
    lemma_rename_sound(
        body,
        scope_funs(scope, ds),
        inner,
        cn,
        env,
        group_env(env, fenv, ds),
        env2,
        group_env(env2, fenv2, us),
        fuel,
        out,
    );
}

/// Renaming keeps the meaning of a call.
pub proof fn lemma_rename_call_sound(
    f: Name,
    args: Seq<Term>,
    scope: Scope,
    m: Renaming,
    c: nat,
    env: EnvView,
    fenv: FunEnv,
    env2: EnvView,
    fenv2: FunEnv,
    fuel: nat,
    out: Seq<char>,
)
    requires
        scoped(Term::Call(f, args), scope),
        tidy(uniq(Term::Call(f, args), m, c), keys(env2), arities(fenv2)),
        vars_rel(scope, m, env, env2),
        funs_rel(scope, m, fenv, fenv2),
        world_rel(fenv, fenv2),
    ensures
        beval(uniq(Term::Call(f, args), m, c), env2, fenv2, fuel, out) == beval(
            Term::Call(f, args),
            env,
            fenv,
            fuel,
            out,
        ),
    decreases fuel, Term::Call(f, args), 0nat,
{
    let f2 = rename(m, f);
    let us = uniq_args(args, m, c);
    lemma_uniq_args_index(args, m, c);
    lemma_rename_args_sound(args, scope, m, c, env, fenv, env2, fenv2, fuel, out);
    assert(fun_arity(scope, f) is Some);
    let k = place(fenv, f);
    assert(place(fenv2, f2) == k);
    lemma_lookup_keys(fenv, f);
    lemma_lookup_keys(fenv2, f2);
    let cl = fenv[k].1;
    let cl2 = fenv2[k].1;
    assert(clo_rel(cl, cl2));
    let s = choose|s: Site| renamed_at(cl, cl2, s);
    let i = cl.index as int;
    let d = cl.group[i];
    let d2 = cl2.group[i];
    let inner = extend(s.m, decl_names(cl.group), s.base);
    let cb = s.c + decls_binders(cl.group.take(i));
    let kk = d.params.len();
    lemma_uniq_decls_index(cl.group, inner, s.c, s.base);
    lemma_decl_names(cl.group, inner, s.c, s.base);
    assert(d2.params == fresh_names(cb, kk));
    assert(d2.body == uniq(d.body, extend(inner, d.params, cb), cb + kk));
    lemma_beval_args_len(args, env, fenv, fuel, out);
    match beval_args(args, env, fenv, fuel, out) {
        ResList::Fail(_, _) => {},
        ResList::Done(vs, o) => {
            assert(closure_fault(cl2, vs.len(), fuel) == closure_fault(cl, vs.len(), fuel));
            if fuel > 0 && closure_fault(cl, vs.len(), fuel) is None {
                let scope_g = scope_funs(s.scope, cl.group);
                let fenv_b = group_env(cl.env, cl.fenv, cl.group);
                let fenv2_b = group_env(cl2.env, cl2.fenv, cl2.group);
                let env_b = bind_params(cl.env, d.params, vs);
                let env2_b = bind_params(cl2.env, d2.params, vs);
                lemma_vars_rel_funs(s.scope, s.m, cl.env, cl2.env, cl.group, s.base);
                lemma_vars_rel_params(scope_g, inner, cl.env, cl2.env, d.params, d2.params, vs);
                lemma_funs_rel_group(
                    s.scope,
                    s.m,
                    cl.fenv,
                    cl2.fenv,
                    cl.env,
                    cl2.env,
                    cl.group,
                    cl2.group,
                    s.base,
                );
                lemma_funs_rel_vars(scope_g, inner, fenv_b, fenv2_b, d.params, d2.params);
                assert(extend(inner, d.params, cb) =~= inner + zip_names(d.params, d2.params));
                assert(world_rel(cl.fenv, cl2.fenv));
                assert(renamed_at(
                    Clo { env: cl.env, fenv: cl.fenv, group: cl.group, index: 0 },
                    Clo { env: cl2.env, fenv: cl2.fenv, group: cl2.group, index: 0 },
                    s,
                ));
                lemma_world_rel_group(cl.env, cl.fenv, cl.group, cl2.env, cl2.fenv, cl2.group, s);
                assert(keys(env2_b) =~= keys(cl2.env) + d2.params);
                lemma_rename_sound(
                    d.body,
                    with_vars(scope_g, d.params),
                    extend(inner, d.params, cb),
                    cb + kk,
                    env_b,
                    fenv_b,
                    env2_b,
                    fenv2_b,
                    (fuel - 1) as nat,
                    o,
                );
            }
        },
    }
}

/// Renaming keeps the meaning of a program: the renamed program prints
/// the same and comes to the same value or the same error as the
/// program, whatever number of nested calls may be made.
pub proof fn lemma_renaming_keeps_meaning(t: Term, fuel: nat, out: Seq<char>)
    requires
        surface(t),
        scoped(t, Seq::empty()),
    ensures
        beval(uniquify_term(t), Seq::empty(), Seq::empty(), fuel, out) == beval(
            t,
            Seq::empty(),
            Seq::empty(),
            fuel,
            out,
        ),
{
    let env: EnvView = Seq::empty();
    let fenv: FunEnv = Seq::empty();
    let scope: Scope = Seq::empty();
    let m: Renaming = Seq::empty();
    assert(keys(env) =~= Seq::<Name>::empty());
    assert(arities(fenv) =~= Seq::empty());
    assert(keys(arities(fenv)) =~= Seq::<Name>::empty());
    assert(keys(scope) =~= Seq::<Name>::empty());
    lemma_uniq_tidy(t, scope, m, 0, Seq::empty(), Seq::empty());
    lemma_rename_sound(t, scope, m, 0, env, fenv, env, fenv, fuel, out);
}

} // verus!
