//! Renamed programs are tidy: every name that renaming binds is a numeral
//! that is bound nowhere around it, and every call is of a function in
//! scope with as many parameters as the call has arguments.

use crate::checker::{Kind, Scope, with_vars};
use crate::lambda_lift::{bound_names, captured_decls, FunTable, lambda_lift_term, lift, lift_args};
use crate::lambda_lift::{lift_bindings, lift_decls, with_group};
use crate::names::{decimal, has_name, index_of, keys, lemma_decimal_injective, lemma_index_of};
use crate::names::lookup;
use crate::scopes::{binding_names_of, lemma_index_of_concat, lemma_let_scope, lemma_surface_parts};
use crate::scopes::{lemma_uniq_args_index, lemma_uniq_bindings_index, lemma_uniq_decls_index};
use crate::scopes::{scope_funs, scoped, surface, zip_names};
use crate::syntax::{FunTerm, Name, Term};
use crate::uniquify::{args_binders, binders, bindings_binders, decl_names, decls_binders, extend};
use crate::uniquify::{fresh_names, lemma_bindings_binders_take, let_scope, rename, Renaming, uniq};
use crate::uniquify::{uniq_args, uniq_bindings, uniq_decls};
use crate::uniquify_laws::lemma_decl_names;
use vstd::prelude::*;

verus! {

/// The functions of a group with the numbers of their parameters.
pub open spec fn group_arities(ds: Seq<FunTerm>) -> Seq<(Name, nat)> {
    Seq::new(ds.len(), |j: int| (ds[j].name, ds[j].params.len()))
}

/// Whether no name of `xs` is in `vs` or comes twice.
pub open spec fn fresh(xs: Seq<Name>, vs: Seq<Name>) -> bool {
    forall|j: int| 0 <= j < xs.len() ==> !has_name(vs + xs.take(j), #[trigger] xs[j])
}

/// Whether an expression is tidy under the variables `vs` and the
/// functions `fs`: no name that it binds is bound around it or twice, and
/// every call is of a function in scope, with as many arguments as the
/// function takes.
pub open spec fn tidy(t: Term, vs: Seq<Name>, fs: Seq<(Name, nat)>) -> bool
    decreases t,
{
    match t {
        Term::Num(_) | Term::Bool(_) | Term::Var(_) => true,
        Term::Prim(_, args) => forall|i: int|
            0 <= i < args.len() ==> tidy(#[trigger] args[i], vs, fs),
        Term::Let(bs, body) => fresh(bound_names(bs), vs) && tidy(
            *body,
            vs + bound_names(bs),
            fs,
        ) && forall|i: int|
            0 <= i < bs.len() ==> tidy((#[trigger] bs[i]).1, vs + bound_names(bs).take(i), fs),
        Term::If(c, a, b) => tidy(*c, vs, fs) && tidy(*a, vs, fs) && tidy(*b, vs, fs),
        Term::FunDefs(ds, body) => fresh(decl_names(ds), keys(fs)) && tidy(
            *body,
            vs,
            fs + group_arities(ds),
        ) && forall|i: int|
            0 <= i < ds.len() ==> fresh((#[trigger] ds[i]).params, vs) && tidy(
                ds[i].body,
                vs + ds[i].params,
                fs + group_arities(ds),
            ),
        Term::Call(f, args) => lookup(fs, f) == Some(args.len()) && forall|i: int|
            0 <= i < args.len() ==> tidy(#[trigger] args[i], vs, fs),
        Term::InternalTailCall(_, _) => false,
        Term::ExternalCall(_, _, _) => false,
    }
}

/// Whether `x` is the numeral of a number from one to `c`.
pub open spec fn numeral_to(x: Name, c: nat) -> bool {
    exists|n: nat| 1 <= n <= c && x == #[trigger] decimal(n)
}

/// Whether every name is the numeral of a number from one to `c`.
pub open spec fn below(xs: Seq<Name>, c: nat) -> bool {
    forall|i: int| 0 <= i < xs.len() ==> numeral_to(#[trigger] xs[i], c)
}

/// The number of parameters of the function that `f` names in a scope.
pub open spec fn fun_arity(env: Scope, f: Name) -> Option<nat> {
    match lookup(env, f) {
        Some(Kind::Fun(n)) => Some(n as nat),
        _ => None,
    }
}

/// Whether the substitution sends every function in scope to a name that
/// `fs` holds with the number of its parameters.
pub open spec fn renames_funs(env: Scope, m: Renaming, fs: Seq<(Name, nat)>) -> bool {
    forall|f: Name|
        fun_arity(env, f) is Some ==> lookup(fs, #[trigger] rename(m, f)) == fun_arity(env, f)
}

/// Names up to a number are names up to a greater one.
pub proof fn lemma_below_more(xs: Seq<Name>, c: nat, c2: nat)
    requires
        below(xs, c),
        c <= c2,
    ensures
        below(xs, c2),
{
    assert forall|i: int| 0 <= i < xs.len() implies numeral_to(#[trigger] xs[i], c2) by {
        assert(numeral_to(xs[i], c));
        let n = choose|n: nat| 1 <= n <= c && xs[i] == #[trigger] decimal(n);
        assert(1 <= n <= c2 && xs[i] == decimal(n));
    }
}

/// The numeral of a greater number is not among names up to a number.
pub proof fn lemma_not_below(xs: Seq<Name>, c: nat, k: nat)
    requires
        below(xs, c),
        k > c,
    ensures
        !has_name(xs, decimal(k)),
{
    lemma_index_of(xs, decimal(k));
    if has_name(xs, decimal(k)) {
        let i = index_of(xs, decimal(k));
        assert(numeral_to(xs[i], c));
        let n = choose|n: nat| 1 <= n <= c && xs[i] == #[trigger] decimal(n);
        lemma_decimal_injective(n, k);
    }
}

/// Names up to a number with names up to another.
pub proof fn lemma_below_concat(a: Seq<Name>, b: Seq<Name>, c: nat)
    requires
        below(a, c),
        below(b, c),
    ensures
        below(a + b, c),
{
    assert forall|i: int| 0 <= i < (a + b).len() implies numeral_to(#[trigger] (a + b)[i], c) by {
        if i < a.len() {
            assert((a + b)[i] == a[i]);
        } else {
            assert((a + b)[i] == b[i - a.len()]);
        }
    }
}

/// The numerals that follow a number are fresh beside names up to it, and
/// with them the names go up to the last of the numerals.
pub proof fn lemma_fresh_numerals(vs: Seq<Name>, c: nat, n: nat)
    requires
        below(vs, c),
    ensures
        fresh(fresh_names(c, n), vs),
        below(fresh_names(c, n), c + n),
        below(vs + fresh_names(c, n), c + n),
    decreases n,
{
    let ns = fresh_names(c, n);
    assert forall|i: int| 0 <= i < ns.len() implies numeral_to(#[trigger] ns[i], c + n) by {
        let k = (c + i + 1) as nat;
        assert(1 <= k <= c + n && ns[i] == decimal(k));
    }
    lemma_below_more(vs, c, c + n);
    lemma_below_concat(vs, ns, c + n);
    assert forall|j: int| 0 <= j < ns.len() implies !has_name(vs + ns.take(j), #[trigger] ns[j]) by {
        assert(ns.take(j) =~= fresh_names(c, j as nat));
        lemma_fresh_numerals(vs, c, j as nat);
        lemma_not_below(vs + ns.take(j), c + j as nat, (c + j + 1) as nat);
    }
}

/// The names that a `let` binds before a place are numbered before it.
pub proof fn lemma_bindings_step(bs: Seq<(Name, Term)>, i: int, j: int)
    requires
        0 <= i < j <= bs.len(),
    ensures
        bindings_binders(bs.take(i)) + 1 + binders(bs[i].1) <= bindings_binders(bs.take(j)),
{
    lemma_bindings_binders_take(bs.take(j), i + 1);
    assert(bs.take(j).take(i + 1) =~= bs.take(i + 1));
    assert(bs.take(i + 1).drop_last() =~= bs.take(i));
    assert(bs.take(i + 1).last() == bs[i]);
}

/// The fresh names of the first `i` bindings of a `let` are fresh beside
/// names up to the counter, one after the other.
pub proof fn lemma_binding_names(bs: Seq<(Name, Term)>, c: nat, vs: Seq<Name>, i: int)
    requires
        below(vs, c),
        0 <= i <= bs.len(),
    ensures
        below(vs + binding_names_of(bs, c).take(i), c + bindings_binders(bs.take(i))),
        i < bs.len() ==> !has_name(
            vs + binding_names_of(bs, c).take(i),
            binding_names_of(bs, c)[i],
        ),
{
    let ns = binding_names_of(bs, c).take(i);
    let top = c + bindings_binders(bs.take(i));
    assert forall|j: int| 0 <= j < ns.len() implies numeral_to(#[trigger] ns[j], top) by {
        lemma_bindings_step(bs, j, i);
        let k = c + bindings_binders(bs.take(j)) + 1;
        assert(1 <= k <= top && ns[j] == decimal(k));
    }
    lemma_below_more(vs, c, top);
    lemma_below_concat(vs, ns, top);
    if i < bs.len() {
        lemma_not_below(vs + ns, top, top + 1);
    }
}

/// Binding variables keeps the substitution in step with the functions in
/// scope.
pub proof fn lemma_renames_funs_vars(
    env: Scope,
    m: Renaming,
    fs: Seq<(Name, nat)>,
    xs: Seq<Name>,
    ns: Seq<Name>,
)
    requires
        renames_funs(env, m, fs),
    ensures
        renames_funs(with_vars(env, xs), m + zip_names(xs, ns), fs),
{
    let env1 = with_vars(env, xs);
    let m1 = m + zip_names(xs, ns);
    let added = Seq::new(xs.len(), |j: int| (xs[j], Kind::Var));
    assert(keys(env1) =~= keys(env) + xs);
    assert(keys(m1) =~= keys(m) + xs);
    assert forall|f: Name| fun_arity(env1, f) is Some implies lookup(
        fs,
        #[trigger] rename(m1, f),
    ) == fun_arity(env1, f) by {
        lemma_index_of_concat(keys(env), xs, f);
        lemma_index_of_concat(keys(m), xs, f);
        lemma_index_of(xs, f);
        lemma_index_of(keys(env), f);
        lemma_index_of(keys(m), f);
        if index_of(xs, f) >= 0 {
            assert(env1[keys(env).len() + index_of(xs, f)] == added[index_of(xs, f)]);
        } else {
            assert(rename(m1, f) == rename(m, f));
        }
    }
}

/// Bringing a renamed group into scope keeps the substitution in step
/// with the functions in scope.
pub proof fn lemma_renames_funs_group(
    env: Scope,
    m: Renaming,
    fs: Seq<(Name, nat)>,
    ds: Seq<FunTerm>,
    us: Seq<FunTerm>,
    c: nat,
)
    requires
        renames_funs(env, m, fs),
        below(keys(fs), c),
        us.len() == ds.len(),
        decl_names(us) == fresh_names(c, ds.len()),
        forall|i: int|
            0 <= i < ds.len() ==> (#[trigger] us[i]).params.len() == ds[i].params.len()
                && ds[i].params.len() <= usize::MAX,
    ensures
        renames_funs(scope_funs(env, ds), extend(m, decl_names(ds), c), fs + group_arities(us)),
{
    let names = decl_names(ds);
    let ns = fresh_names(c, ds.len());
    let env1 = scope_funs(env, ds);
    let m1 = extend(m, names, c);
    let fs1 = fs + group_arities(us);
    assert(keys(env1) =~= keys(env) + names);
    assert(keys(m1) =~= keys(m) + names);
    assert(keys(fs1) =~= keys(fs) + ns) by {
        assert forall|i: int| 0 <= i < ds.len() implies keys(group_arities(us))[i] == ns[i] by {
            assert(decl_names(us)[i] == us[i].name);
        }
        assert(keys(group_arities(us)) =~= ns);
    }
    assert forall|f: Name| fun_arity(env1, f) is Some implies lookup(fs1, #[trigger] rename(m1, f))
        == fun_arity(env1, f) by {
        lemma_index_of_concat(keys(env), names, f);
        lemma_index_of_concat(keys(m), names, f);
        lemma_index_of(names, f);
        lemma_index_of(keys(env), f);
        lemma_index_of(keys(m), f);
        let j = index_of(names, f);
        let g = rename(m1, f);
        lemma_index_of_concat(keys(fs), ns, g);
        lemma_index_of(ns, g);
        lemma_index_of(keys(fs), g);
        if j >= 0 {
            assert(env1[keys(env).len() + j].1 == Kind::Fun(ds[j].params.len() as usize));
            assert(m1[keys(m).len() + j].1 == decimal((c + j + 1) as nat));
            assert(ns[j] == g);
            assert(ns.contains(g));
            let i = index_of(ns, g);
            lemma_decimal_injective((c + i + 1) as nat, (c + j + 1) as nat);
            assert(fs1[keys(fs).len() + j].1 == us[j].params.len());
        } else {
            assert(g == rename(m, f));
            assert(fun_arity(env, f) == fun_arity(env1, f));
            assert(lookup(fs, g) is Some);
            let i = index_of(ns, g);
            if i >= 0 {
                lemma_not_below(keys(fs), c, (c + i + 1) as nat);
            }
        }
    }
}

/// A renamed expression is tidy, where the names bound around it are
/// numerals up to the counter.
pub proof fn lemma_uniq_tidy(
    t: Term,
    env: Scope,
    m: Renaming,
    c: nat,
    vs: Seq<Name>,
    fs: Seq<(Name, nat)>,
)
    requires
        scoped(t, env),
        surface(t),
        below(vs, c),
        below(keys(fs), c),
        renames_funs(env, m, fs),
    ensures
        tidy(uniq(t, m, c), vs, fs),
    decreases t, 1nat,
{
    lemma_surface_parts(t);
    match t {
        Term::Num(_) | Term::Bool(_) | Term::Var(_) => {},
        Term::Prim(p, args) => {
            lemma_uniq_tidy_args(args, env, m, c, vs, fs);
        },
        Term::Let(bs, body) => {
            lemma_uniq_bindings_index(bs, m, c);
            lemma_let_scope(bs, m, c);
            let us = uniq_bindings(bs, m, c);
            let names = bound_names(bs);
            let ns = binding_names_of(bs, c);
            assert(bound_names(us) == ns);
            assert(fresh(ns, vs)) by {
                assert forall|j: int| 0 <= j < ns.len() implies !has_name(
                    vs + ns.take(j),
                    #[trigger] ns[j],
                ) by {
                    lemma_binding_names(bs, c, vs, j);
                }
            }
            assert forall|i: int| 0 <= i < us.len() implies tidy(
                (#[trigger] us[i]).1,
                vs + ns.take(i),
                fs,
            ) by {
                let ci = c + bindings_binders(bs.take(i));
                lemma_binding_names(bs, c, vs, i);
                lemma_below_more(vs + ns.take(i), ci, ci + 1);
                lemma_below_more(keys(fs), c, ci + 1);
                lemma_let_scope(bs.take(i), m, c);
                lemma_renames_funs_vars(
                    env,
                    m,
                    fs,
                    bound_names(bs.take(i)),
                    binding_names_of(bs.take(i), c),
                );
                assert(bound_names(bs.take(i)) =~= names.take(i));
                lemma_uniq_tidy(
                    bs[i].1,
                    with_vars(env, names.take(i)),
                    let_scope(bs.take(i), m, c),
                    ci + 1,
                    vs + ns.take(i),
                    fs,
                );
            }
            let cn = c + bindings_binders(bs);
            lemma_binding_names(bs, c, vs, bs.len() as int);
            assert(bs.take(bs.len() as int) =~= bs);
            assert(ns.take(bs.len() as int) =~= ns);
            lemma_bindings_binders_take(bs, 0);
            lemma_below_more(keys(fs), c, cn);
            lemma_renames_funs_vars(env, m, fs, names, ns);
            lemma_uniq_tidy(*body, with_vars(env, names), let_scope(bs, m, c), cn, vs + ns, fs);
        },
        Term::If(cond, a, b) => {
            lemma_uniq_tidy(*cond, env, m, c, vs, fs);
            lemma_below_more(vs, c, c + binders(*cond));
            lemma_below_more(keys(fs), c, c + binders(*cond));
            lemma_uniq_tidy(*a, env, m, c + binders(*cond), vs, fs);
            lemma_below_more(vs, c, c + binders(*cond) + binders(*a));
            lemma_below_more(keys(fs), c, c + binders(*cond) + binders(*a));
            lemma_uniq_tidy(*b, env, m, c + binders(*cond) + binders(*a), vs, fs);
        },
        Term::FunDefs(ds, body) => {
            lemma_uniq_tidy_group(ds, *body, env, m, c, vs, fs);
        },
        Term::Call(f, args) => {
            lemma_uniq_args_index(args, m, c);
            assert(fun_arity(env, f) == Some(args.len()));
            assert(lookup(fs, rename(m, f)) == Some(args.len()));
            lemma_uniq_tidy_args(args, env, m, c, vs, fs);
        },
        Term::InternalTailCall(_, _) => {},
        Term::ExternalCall(_, _, _) => {},
    }
}

/// A renamed group of functions with what stands in its scope is tidy.
pub proof fn lemma_uniq_tidy_group(
    ds: Seq<FunTerm>,
    body: Term,
    env: Scope,
    m: Renaming,
    c: nat,
    vs: Seq<Name>,
    fs: Seq<(Name, nat)>,
)
    requires
        scoped(Term::FunDefs(ds, Box::new(body)), env),
        surface(Term::FunDefs(ds, Box::new(body))),
        below(vs, c),
        below(keys(fs), c),
        renames_funs(env, m, fs),
    ensures
        tidy(uniq(Term::FunDefs(ds, Box::new(body)), m, c), vs, fs),
    decreases Term::FunDefs(ds, Box::new(body)), 0nat,
{
    let t = Term::FunDefs(ds, Box::new(body));
    lemma_surface_parts(t);
    let n = ds.len();
    let inner = extend(m, decl_names(ds), c);
    let us = uniq_decls(ds, inner, c + n, c);
    let env1 = scope_funs(env, ds);
    let fs1 = fs + group_arities(us);
    lemma_uniq_decls_index(ds, inner, c + n, c);
    lemma_decl_names(ds, inner, c + n, c);
    lemma_fresh_numerals(keys(fs), c, n);
    assert(keys(fs1) =~= keys(fs) + fresh_names(c, n)) by {
        assert forall|i: int| 0 <= i < n implies keys(group_arities(us))[i] == fresh_names(
            c,
            n,
        )[i] by {
            assert(decl_names(us)[i] == us[i].name);
        }
        assert(keys(group_arities(us)) =~= fresh_names(c, n));
    }
    lemma_renames_funs_group(env, m, fs, ds, us, c);
    let cn = c + n + decls_binders(ds);
    lemma_below_more(vs, c, cn);
    lemma_below_more(keys(fs1), c + n, cn);
    lemma_uniq_tidy(body, env1, inner, cn, vs, fs1);
    assert forall|i: int| 0 <= i < us.len() implies fresh((#[trigger] us[i]).params, vs) && tidy(
        us[i].body,
        vs + us[i].params,
        fs1,
    ) by {
        let cb = c + n + decls_binders(ds.take(i));
        let k = ds[i].params.len();
        lemma_below_more(vs, c, cb);
        lemma_fresh_numerals(vs, cb, k);
        lemma_below_more(keys(fs1), c + n, cb + k);
        assert(extend(inner, ds[i].params, cb) =~= inner + zip_names(
            ds[i].params,
            fresh_names(cb, k),
        ));
        lemma_renames_funs_vars(env1, inner, fs1, ds[i].params, fresh_names(cb, k));
        lemma_uniq_tidy(
            ds[i].body,
            with_vars(env1, ds[i].params),
            extend(inner, ds[i].params, cb),
            cb + k,
            vs + us[i].params,
            fs1,
        );
    }
    assert(uniq(t, m, c) == Term::FunDefs(us, Box::new(uniq(body, inner, cn))));
}

/// Renamed arguments are tidy.
pub proof fn lemma_uniq_tidy_args(
    args: Seq<Term>,
    env: Scope,
    m: Renaming,
    c: nat,
    vs: Seq<Name>,
    fs: Seq<(Name, nat)>,
)
    requires
        forall|i: int| 0 <= i < args.len() ==> scoped(#[trigger] args[i], env) && surface(args[i]),
        below(vs, c),
        below(keys(fs), c),
        renames_funs(env, m, fs),
    ensures
        uniq_args(args, m, c).len() == args.len(),
        forall|i: int|
            0 <= i < args.len() ==> tidy(#[trigger] uniq_args(args, m, c)[i], vs, fs),
    decreases args, 0nat,
{
    lemma_uniq_args_index(args, m, c);
    let us = uniq_args(args, m, c);
    assert forall|i: int| 0 <= i < args.len() implies tidy(#[trigger] us[i], vs, fs) by {
        let ci = c + args_binders(args.take(i));
        lemma_below_more(vs, c, ci);
        lemma_below_more(keys(fs), c, ci);
        lemma_uniq_tidy(args[i], env, m, ci, vs, fs);
    }
}

/// Whether no two functions carry the same name.
pub open spec fn distinct_names(all: Seq<FunTerm>) -> bool {
    forall|i: int, j: int|
        0 <= i < all.len() && 0 <= j < all.len() && (#[trigger] all[i]).name == (
        #[trigger] all[j]).name ==> i == j
}

/// The numbers after `lo` up to `hi`.
pub open spec fn span(lo: nat, hi: nat) -> Set<nat> {
    Set::new(|n: nat| lo < n <= hi)
}

/// Whether `x` is the numeral of a number in `s`.
pub open spec fn numeral_in(x: Name, s: Set<nat>) -> bool {
    exists|n: nat| s.contains(n) && x == #[trigger] decimal(n)
}

/// Whether the name of every function is the numeral of a number in `s`.
pub open spec fn named_in(gs: Seq<FunTerm>, s: Set<nat>) -> bool {
    forall|k: int| 0 <= k < gs.len() ==> numeral_in((#[trigger] gs[k]).name, s)
}

/// Functions named apart, with numerals from sets that share no number,
/// are named apart together.
pub proof fn lemma_named_concat(
    a: Seq<FunTerm>,
    b: Seq<FunTerm>,
    s1: Set<nat>,
    s2: Set<nat>,
    s: Set<nat>,
)
    requires
        named_in(a, s1),
        named_in(b, s2),
        distinct_names(a),
        distinct_names(b),
        forall|n: nat| !(s1.contains(n) && s2.contains(n)),
        forall|n: nat| s1.contains(n) || s2.contains(n) ==> s.contains(n),
    ensures
        named_in(a + b, s),
        distinct_names(a + b),
{
    let ab = a + b;
    assert forall|k: int| 0 <= k < ab.len() implies numeral_in((#[trigger] ab[k]).name, s) by {
        if k < a.len() {
            assert(ab[k] == a[k]);
            assert(numeral_in(a[k].name, s1));
            let n = choose|n: nat| s1.contains(n) && a[k].name == #[trigger] decimal(n);
            assert(s.contains(n) && ab[k].name == decimal(n));
        } else {
            assert(ab[k] == b[k - a.len()]);
            assert(numeral_in(b[k - a.len()].name, s2));
            let n = choose|n: nat| s2.contains(n) && b[k - a.len()].name == #[trigger] decimal(n);
            assert(s.contains(n) && ab[k].name == decimal(n));
        }
    }
    assert forall|i: int, j: int|
        0 <= i < ab.len() && 0 <= j < ab.len() && (#[trigger] ab[i]).name == (
        #[trigger] ab[j]).name implies i == j by {
        if i < a.len() && j < a.len() {
            assert(ab[i] == a[i] && ab[j] == a[j]);
        } else if i >= a.len() && j >= a.len() {
            assert(ab[i] == b[i - a.len()] && ab[j] == b[j - a.len()]);
        } else {
            let (x, y) = if i < a.len() {
                (i, j - a.len())
            } else {
                (j, i - a.len())
            };
            assert(ab[x] == a[x]);
            assert(ab[a.len() + y] == b[y]);
            assert(numeral_in(a[x].name, s1));
            assert(numeral_in(b[y].name, s2));
            let n1 = choose|n: nat| s1.contains(n) && a[x].name == #[trigger] decimal(n);
            let n2 = choose|n: nat| s2.contains(n) && b[y].name == #[trigger] decimal(n);
            lemma_decimal_injective(n1, n2);
        }
    }
}

/// No function is named apart from no other.
pub proof fn lemma_named_none(s: Set<nat>)
    ensures
        named_in(Seq::empty(), s),
        distinct_names(Seq::empty()),
{
}

/// The functions that lifting takes out of a renamed expression are named
/// apart, by numerals after the counter.
pub proof fn lemma_lifted_names(t: Term, m: Renaming, c: nat, sc: Seq<Name>, funs: FunTable)
    ensures
        named_in(lift(uniq(t, m, c), sc, funs).1, span(c, c + binders(t))),
        distinct_names(lift(uniq(t, m, c), sc, funs).1),
    decreases t, 1nat,
{
    let goal = span(c, c + binders(t));
    match t {
        Term::Num(_) | Term::Bool(_) | Term::Var(_) => {
            lemma_named_none(goal);
        },
        Term::Prim(_, args) => {
            lemma_lifted_names_args(args, m, c, sc, funs);
        },
        Term::Call(_, args) => {
            lemma_lifted_names_args(args, m, c, sc, funs);
        },
        Term::InternalTailCall(_, args) => {
            lemma_lifted_names_args(args, m, c, sc, funs);
        },
        Term::ExternalCall(_, args, _) => {
            lemma_lifted_names_args(args, m, c, sc, funs);
        },
        Term::Let(bs, body) => {
            let us = uniq_bindings(bs, m, c);
            let cn = c + bindings_binders(bs);
            lemma_lifted_names_bindings(bs, m, c, sc, funs);
            lemma_lifted_names(*body, let_scope(bs, m, c), cn, sc + bound_names(us), funs);
            lemma_named_concat(
                lift_bindings(us, sc, funs).1,
                lift(uniq(*body, let_scope(bs, m, c), cn), sc + bound_names(us), funs).1,
                span(c, cn),
                span(cn, cn + binders(*body)),
                goal,
            );
        },
        Term::If(cond, a, b) => {
            let c1 = c + binders(*cond);
            let c2 = c1 + binders(*a);
            lemma_lifted_names(*cond, m, c, sc, funs);
            lemma_lifted_names(*a, m, c1, sc, funs);
            lemma_lifted_names(*b, m, c2, sc, funs);
            let g1 = lift(uniq(*cond, m, c), sc, funs).1;
            let g2 = lift(uniq(*a, m, c1), sc, funs).1;
            let g3 = lift(uniq(*b, m, c2), sc, funs).1;
            lemma_named_concat(g1, g2, span(c, c1), span(c1, c2), span(c, c2));
            lemma_named_concat(g1 + g2, g3, span(c, c2), span(c2, c2 + binders(*b)), goal);
        },
        Term::FunDefs(ds, body) => {
            let n = ds.len();
            let inner = extend(m, decl_names(ds), c);
            let us = uniq_decls(ds, inner, c + n, c);
            let cn = c + n + decls_binders(ds);
            let cap = captured_decls(us, sc, funs, Seq::empty());
            let funs1 = with_group(funs, us, cap);
            lemma_lifted_names_decls(ds, inner, c + n, c, cap, funs1);
            lemma_lifted_names(*body, inner, cn, sc, funs1);
            lemma_named_concat(
                lift_decls(us, cap, funs1),
                lift(uniq(*body, inner, cn), sc, funs1).1,
                span(c, c + n).union(span(c + n, cn)),
                span(cn, cn + binders(*body)),
                goal,
            );
        },
    }
}

/// The functions lifted out of renamed arguments are named apart.
pub proof fn lemma_lifted_names_args(
    args: Seq<Term>,
    m: Renaming,
    c: nat,
    sc: Seq<Name>,
    funs: FunTable,
)
    ensures
        named_in(lift_args(uniq_args(args, m, c), sc, funs).1, span(c, c + args_binders(args))),
        distinct_names(lift_args(uniq_args(args, m, c), sc, funs).1),
    decreases args, 0nat,
{
    let goal = span(c, c + args_binders(args));
    if args.len() == 0 {
        lemma_named_none(goal);
    } else {
        let dl = args.drop_last();
        let cd = c + args_binders(dl);
        let us = uniq_args(args, m, c);
        assert(us.drop_last() =~= uniq_args(dl, m, c));
        assert(us.last() == uniq(args.last(), m, cd));
        lemma_lifted_names_args(dl, m, c, sc, funs);
        lemma_lifted_names(args.last(), m, cd, sc, funs);
        lemma_named_concat(
            lift_args(uniq_args(dl, m, c), sc, funs).1,
            lift(uniq(args.last(), m, cd), sc, funs).1,
            span(c, cd),
            span(cd, cd + binders(args.last())),
            goal,
        );
    }
}

/// The functions lifted out of the renamed bindings of a `let` are named
/// apart.
pub proof fn lemma_lifted_names_bindings(
    bs: Seq<(Name, Term)>,
    m: Renaming,
    c: nat,
    sc: Seq<Name>,
    funs: FunTable,
)
    ensures
        named_in(
            lift_bindings(uniq_bindings(bs, m, c), sc, funs).1,
            span(c, c + bindings_binders(bs)),
        ),
        distinct_names(lift_bindings(uniq_bindings(bs, m, c), sc, funs).1),
    decreases bs, 0nat,
{
    let goal = span(c, c + bindings_binders(bs));
    if bs.len() == 0 {
        lemma_named_none(goal);
    } else {
        let dl = bs.drop_last();
        let cd = c + bindings_binders(dl);
        let us = uniq_bindings(bs, m, c);
        let ud = uniq_bindings(dl, m, c);
        let value = uniq(bs.last().1, let_scope(dl, m, c), cd + 1);
        assert(us.drop_last() =~= ud);
        assert(us.last() == (decimal(cd + 1), value));
        lemma_lifted_names_bindings(dl, m, c, sc, funs);
        lemma_lifted_names(bs.last().1, let_scope(dl, m, c), cd + 1, sc + bound_names(ud), funs);
        lemma_named_concat(
            lift_bindings(ud, sc, funs).1,
            lift(value, sc + bound_names(ud), funs).1,
            span(c, cd),
            span(cd + 1, cd + 1 + binders(bs.last().1)),
            goal,
        );
    }
}

/// The functions that lifting makes of a renamed group are named apart:
/// the functions of the group by the numerals after `base`, those lifted
/// out of their bodies by numerals after the counter.
pub proof fn lemma_lifted_names_decls(
    ds: Seq<FunTerm>,
    m: Renaming,
    c: nat,
    base: nat,
    cap: Seq<Name>,
    funs: FunTable,
)
    requires
        base + ds.len() <= c,
    ensures
        named_in(
            lift_decls(uniq_decls(ds, m, c, base), cap, funs),
            span(base, base + ds.len()).union(span(c, c + decls_binders(ds))),
        ),
        distinct_names(lift_decls(uniq_decls(ds, m, c, base), cap, funs)),
    decreases ds, 0nat,
{
    let goal = span(base, base + ds.len()).union(span(c, c + decls_binders(ds)));
    if ds.len() == 0 {
        lemma_named_none(goal);
    } else {
        let dl = ds.drop_last();
        let d = ds.last();
        let cb = c + decls_binders(dl);
        let k = d.params.len();
        let us = uniq_decls(ds, m, c, base);
        let ud = uniq_decls(dl, m, c, base);
        let body = uniq(d.body, extend(m, d.params, cb), cb + k);
        assert(us.drop_last() =~= ud);
        assert(us.last() == FunTerm {
            name: decimal(base + ds.len()),
            params: fresh_names(cb, k),
            body,
        });
        lemma_lifted_names_decls(dl, m, c, base, cap, funs);
        lemma_lifted_names(d.body, extend(m, d.params, cb), cb + k, fresh_names(cb, k) + cap, funs);
        let (lifted_body, gs) = lift(body, fresh_names(cb, k) + cap, funs);
        let lifted = FunTerm {
            name: decimal(base + ds.len()),
            params: fresh_names(cb, k) + cap,
            body: lifted_body,
        };
        let one = Seq::<FunTerm>::empty().push(lifted);
        let mine = Set::<nat>::empty().insert(base + ds.len());
        assert(named_in(one, mine)) by {
            assert(mine.contains(base + ds.len()) && one[0].name == decimal(base + ds.len()));
        }
        assert(distinct_names(one));
        let inner = span(cb + k, cb + k + binders(d.body));
        lemma_named_concat(gs, one, inner, mine, inner.union(mine));
        assert(gs + one =~= gs.push(lifted));
        lemma_named_concat(
            lift_decls(ud, cap, funs),
            gs.push(lifted),
            span(base, base + dl.len()).union(span(c, cb)),
            inner.union(mine),
            goal,
        );
    }
}

/// The functions lifted out of a program carry different names.
pub proof fn lemma_lifted_distinct(t: Term)
    ensures
        distinct_names(lambda_lift_term(t).1),
{
    lemma_lifted_names(t, Seq::empty(), 0, Seq::empty(), Seq::empty());
}

} // verus!
