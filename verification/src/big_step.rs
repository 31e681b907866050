//! The machine and the evaluation: where the evaluation of a program
//! comes to a result, the machine comes to the same, given steps enough.

use crate::interp::{bind_group, bind_params, call_spec, ClosureView, Config, ControlView, EnvView};
use crate::interp::{FrameView, group_closures, InterpFault, interpret, mangled, Outcome, printed};
use crate::interp::{run, SnakeVal, start, step, stuck};
use crate::lift_sound::{lemma_lookup_concat, lemma_lookup_keys};
use crate::names::{has_name, index_of, keys, lemma_index_of, lookup};
use crate::rename_sound::place;
use crate::scopes::lemma_index_of_concat;
use crate::semantics::{beval, beval_args, beval_bindings, choice, Clo, clo_decl, closure_fault};
use crate::semantics::{FunEnv, group_env, Res, ResEnv, ResList};
use crate::syntax::{FunTerm, Name, Prim, Term};
use crate::uniquify::decl_names;
use vstd::prelude::*;

verus! {

/// Whether a name is one under which an environment holds a function.
pub open spec fn is_mangled(x: Name) -> bool {
    x.len() >= 4 && x.subrange(x.len() - 4, x.len() as int) == "#fun"@
}

/// Whether no name of a list is one under which an environment holds a
/// function.
pub open spec fn no_mangled(xs: Seq<Name>) -> bool {
    forall|i: int| 0 <= i < xs.len() ==> !is_mangled(#[trigger] xs[i])
}

/// Whether no variable that an expression binds or reads is named as an
/// environment names a function.
pub open spec fn unmangled(t: Term) -> bool
    decreases t,
{
    match t {
        Term::Var(x) => !is_mangled(x),
        Term::Prim(_, args) => forall|i: int|
            0 <= i < args.len() ==> unmangled(#[trigger] args[i]),
        Term::Let(bs, body) => unmangled(*body) && forall|i: int|
            0 <= i < bs.len() ==> !is_mangled((#[trigger] bs[i]).0) && unmangled(bs[i].1),
        Term::If(c, a, b) => unmangled(*c) && unmangled(*a) && unmangled(*b),
        Term::FunDefs(ds, body) => unmangled(*body) && forall|i: int|
            0 <= i < ds.len() ==> no_mangled((#[trigger] ds[i]).params) && unmangled(ds[i].body),
        Term::Call(_, args) => forall|i: int|
            0 <= i < args.len() ==> unmangled(#[trigger] args[i]),
        _ => true,
    }
}

/// The name of a function in an environment is a mangled name, and
/// different functions have different ones.
pub proof fn lemma_mangled(f: Name, g: Name)
    ensures
        is_mangled(mangled(f)),
        mangled(f) == mangled(g) ==> f == g,
{
    reveal_strlit("#fun");
    let s = "#fun"@;
    assert(mangled(f).subrange(mangled(f).len() - 4, mangled(f).len() as int) =~= s);
    if mangled(f) == mangled(g) {
        assert(f.len() == g.len());
        assert forall|i: int| 0 <= i < f.len() implies f[i] == g[i] by {
            assert(mangled(f)[i] == f[i]);
            assert(mangled(g)[i] == g[i]);
        }
        assert(f =~= g);
    }
}

/// The mangled names of a list of names.
pub open spec fn mangled_all(names: Seq<Name>) -> Seq<Name> {
    Seq::new(names.len(), |j: int| mangled(names[j]))
}

/// A function is found among mangled names where its name is found.
pub proof fn lemma_mangled_index(names: Seq<Name>, f: Name)
    ensures
        index_of(mangled_all(names), mangled(f)) == index_of(names, f),
    decreases names.len(),
{
    if names.len() > 0 {
        assert(mangled_all(names).drop_last() =~= mangled_all(names.drop_last()));
        lemma_mangled_index(names.drop_last(), f);
        lemma_mangled(names.last(), f);
    }
}

/// No name that is not mangled is among mangled names.
pub proof fn lemma_mangled_other(names: Seq<Name>, x: Name)
    requires
        !is_mangled(x),
    ensures
        !has_name(mangled_all(names), x),
{
    lemma_index_of(mangled_all(names), x);
    let i = index_of(mangled_all(names), x);
    if i >= 0 {
        lemma_mangled(names[i], names[i]);
    }
}

/// No mangled name is among names that are not mangled.
pub proof fn lemma_not_mangled(xs: Seq<Name>, f: Name)
    requires
        no_mangled(xs),
    ensures
        !has_name(xs, mangled(f)),
{
    lemma_index_of(xs, mangled(f));
    lemma_mangled(f, f);
}

/// The closure that an environment of the machine holds for a function.
pub open spec fn closure_at(menv: EnvView, f: Name) -> Option<usize> {
    match lookup(menv, mangled(f)) {
        Some(SnakeVal::Closure(i)) => Some(i),
        _ => None,
    }
}

/// Whether the environment of the machine binds every variable as the
/// environment does.
pub open spec fn vars_same(env: EnvView, menv: EnvView) -> bool {
    forall|x: Name| !is_mangled(x) ==> #[trigger] lookup(menv, x) == lookup(env, x)
}

/// Whether the closure at `idx` of the machine is the closure `cl`: its
/// group lies in the store side by side, each function of it with the
/// environment that holds the group, and below the group that environment
/// is the one the group was defined in.
pub open spec fn clo_ok(cl: Clo, idx: int, funs: Seq<ClosureView>) -> bool
    decreases cl, 0nat,
{
    let n = cl.group.len();
    let first = idx - cl.index;
    let inner = funs[idx].env;
    let outer = inner.take(inner.len() - n);
    &&& cl.index < n
    &&& 0 <= first
    &&& first + n <= funs.len()
    &&& inner.len() >= n
    &&& inner == bind_group(outer, cl.group, first as nat)
    &&& forall|j: int|
        0 <= j < n ==> #[trigger] funs[first + j] == (ClosureView { env: inner, decl: cl.group[j] })
    &&& forall|j: int|
        0 <= j < n ==> no_mangled((#[trigger] cl.group[j]).params) && unmangled(cl.group[j].body)
    &&& env_rel(cl.env, cl.fenv, outer, funs)
}

/// Whether an environment of the machine holds the variables of `env`
/// and, as closures of the store, the functions of `fenv`.
pub open spec fn env_rel(env: EnvView, fenv: FunEnv, menv: EnvView, funs: Seq<ClosureView>) -> bool
    decreases fenv, 1nat,
{
    &&& funs.len() <= usize::MAX
    &&& vars_same(env, menv)
    &&& forall|f: Name| lookup(fenv, f) is None ==> #[trigger] closure_at(menv, f) is None
    &&& forall|k: int|
        0 <= k < fenv.len() && place(fenv, (#[trigger] fenv[k]).0) == k ==> closure_at(
            menv,
            fenv[k].0,
        ) is Some && clo_ok(fenv[k].1, closure_at(menv, fenv[k].0)->0 as int, funs)
}

/// Whether a store holds what another holds, and maybe more.
pub open spec fn extends(funs2: Seq<ClosureView>, funs: Seq<ClosureView>) -> bool {
    funs.len() <= funs2.len() && forall|i: int| 0 <= i < funs.len() ==> funs2[i] == funs[i]
}

/// A closure of a store is a closure of a store that holds more.
pub proof fn lemma_clo_more(cl: Clo, idx: int, funs: Seq<ClosureView>, funs2: Seq<ClosureView>)
    requires
        clo_ok(cl, idx, funs),
        extends(funs2, funs),
        funs2.len() <= usize::MAX,
    ensures
        clo_ok(cl, idx, funs2),
    decreases cl, 0nat,
{
    let n = cl.group.len();
    let first = idx - cl.index;
    let inner = funs[idx].env;
    let outer = inner.take(inner.len() - n);
    assert(funs[first + cl.index] == funs2[first + cl.index]);
    assert forall|j: int| 0 <= j < n implies #[trigger] funs2[first + j] == (ClosureView {
        env: inner,
        decl: cl.group[j],
    }) by {
        assert(funs[first + j] == funs2[first + j]);
    }
    lemma_env_more(cl.env, cl.fenv, outer, funs, funs2);
}

/// An environment of the machine that holds the functions as closures of
/// a store holds them as closures of a store that holds more.
pub proof fn lemma_env_more(
    env: EnvView,
    fenv: FunEnv,
    menv: EnvView,
    funs: Seq<ClosureView>,
    funs2: Seq<ClosureView>,
)
    requires
        env_rel(env, fenv, menv, funs),
        extends(funs2, funs),
        funs2.len() <= usize::MAX,
    ensures
        env_rel(env, fenv, menv, funs2),
    decreases fenv, 1nat,
{
    assert forall|k: int|
        0 <= k < fenv.len() && place(fenv, (#[trigger] fenv[k]).0) == k implies closure_at(
        menv,
        fenv[k].0,
    ) is Some && clo_ok(fenv[k].1, closure_at(menv, fenv[k].0)->0 as int, funs2) by {
        lemma_clo_more(fenv[k].1, closure_at(menv, fenv[k].0)->0 as int, funs, funs2);
    }
}

/// With a group whose closures the store holds side by side, each with
/// the environment that holds the group, that environment holds the
/// functions in scope with the group.
pub proof fn lemma_env_group(
    env: EnvView,
    fenv: FunEnv,
    menv: EnvView,
    funs: Seq<ClosureView>,
    ds: Seq<FunTerm>,
    first: nat,
)
    requires
        env_rel(env, fenv, menv, funs),
        first + ds.len() <= funs.len(),
        forall|j: int|
            0 <= j < ds.len() ==> #[trigger] funs[first + j] == (ClosureView {
                env: bind_group(menv, ds, first),
                decl: ds[j],
            }),
        forall|j: int|
            0 <= j < ds.len() ==> no_mangled((#[trigger] ds[j]).params) && unmangled(ds[j].body),
    ensures
        env_rel(env, group_env(env, fenv, ds), bind_group(menv, ds, first), funs),
{
    let n = ds.len();
    let names = decl_names(ds);
    let inner = bind_group(menv, ds, first);
    let added = Seq::new(n, |j: int| (mangled(ds[j].name), SnakeVal::Closure((first + j) as usize)));
    let fenv1 = group_env(env, fenv, ds);
    let fresh = Seq::new(n, |j: int| (ds[j].name, Clo { env, fenv, group: ds, index: j as nat }));
    assert(inner == menv + added);
    assert(fenv1 == fenv + fresh);
    assert(keys(added) =~= mangled_all(names));
    assert(keys(fresh) =~= names);
    assert(keys(fenv1) =~= keys(fenv) + names);
    assert(inner.take(inner.len() - n) =~= menv);
    assert forall|x: Name| !is_mangled(x) implies #[trigger] lookup(inner, x) == lookup(env, x) by {
        lemma_lookup_concat(menv, added, x);
        lemma_mangled_other(names, x);
        lemma_lookup_keys(added, x);
        assert(lookup(menv, x) == lookup(env, x));
    }
    assert forall|f: Name|
        closure_at(inner, f) == (if index_of(names, f) >= 0 {
            Some((first + index_of(names, f)) as usize)
        } else {
            closure_at(menv, f)
        }) && #[trigger] place(fenv1, f) == (if index_of(names, f) >= 0 {
            fenv.len() + index_of(names, f)
        } else {
            place(fenv, f)
        }) by {
        lemma_lookup_concat(menv, added, mangled(f));
        lemma_mangled_index(names, f);
        lemma_lookup_keys(added, mangled(f));
        lemma_index_of(names, f);
        lemma_index_of_concat(keys(fenv), names, f);
    }
    assert forall|f: Name| lookup(fenv1, f) is None implies #[trigger] closure_at(inner, f)
        is None by {
        assert(place(fenv1, f) < 0);
        lemma_index_of(keys(fenv), f);
        assert(lookup(fenv, f) is None);
    }
    assert forall|k: int|
        0 <= k < fenv1.len() && place(fenv1, (#[trigger] fenv1[k]).0) == k implies closure_at(
        inner,
        fenv1[k].0,
    ) is Some && clo_ok(fenv1[k].1, closure_at(inner, fenv1[k].0)->0 as int, funs) by {
        let f = fenv1[k].0;
        lemma_index_of(keys(fenv), f);
        lemma_index_of(names, f);
        assert(place(fenv1, f) == k);
        if k >= fenv.len() {
            let j = k - fenv.len();
            assert(fenv1[k] == fresh[j]);
            assert(index_of(names, f) == j);
            let cl = Clo { env, fenv, group: ds, index: j as nat };
            assert(funs[first + j].env == inner);
            assert(clo_ok(cl, first + j, funs));
        } else {
            assert(fenv1[k] == fenv[k]);
            assert(index_of(names, f) < 0);
            assert(place(fenv, fenv[k].0) == k);
        }
    }
}

/// With parameters bound on both sides, the environment of the machine
/// still holds the variables and the functions.
pub proof fn lemma_env_params(
    env: EnvView,
    fenv: FunEnv,
    menv: EnvView,
    funs: Seq<ClosureView>,
    ps: Seq<Name>,
    vs: Seq<SnakeVal>,
)
    requires
        env_rel(env, fenv, menv, funs),
        no_mangled(ps),
        ps.len() == vs.len(),
    ensures
        env_rel(bind_params(env, ps, vs), fenv, bind_params(menv, ps, vs), funs),
{
    let zipped = Seq::new(ps.len(), |i: int| (ps[i], vs[i]));
    let env1 = bind_params(env, ps, vs);
    let menv1 = bind_params(menv, ps, vs);
    assert(keys(zipped) =~= ps);
    assert forall|x: Name| !is_mangled(x) implies #[trigger] lookup(menv1, x) == lookup(env1, x) by {
        lemma_lookup_concat(menv, zipped, x);
        lemma_lookup_concat(env, zipped, x);
        assert(lookup(menv, x) == lookup(env, x));
    }
    assert forall|f: Name| #[trigger] closure_at(menv1, f) == closure_at(menv, f) by {
        lemma_lookup_concat(menv, zipped, mangled(f));
        lemma_not_mangled(ps, f);
        lemma_lookup_keys(zipped, mangled(f));
    }
    assert forall|k: int|
        0 <= k < fenv.len() && place(fenv, (#[trigger] fenv[k]).0) == k implies closure_at(
        menv1,
        fenv[k].0,
    ) is Some && clo_ok(fenv[k].1, closure_at(menv1, fenv[k].0)->0 as int, funs) by {
        assert(closure_at(menv1, fenv[k].0) == closure_at(menv, fenv[k].0));
    }
}

/// With one more variable bound on both sides, the environment of the
/// machine still holds the variables and the functions.
pub proof fn lemma_env_push(
    env: EnvView,
    fenv: FunEnv,
    menv: EnvView,
    funs: Seq<ClosureView>,
    x: Name,
    v: SnakeVal,
)
    requires
        env_rel(env, fenv, menv, funs),
        !is_mangled(x),
    ensures
        env_rel(env.push((x, v)), fenv, menv.push((x, v)), funs),
{
    let ps = Seq::<Name>::empty().push(x);
    let vs = Seq::<SnakeVal>::empty().push(v);
    lemma_env_params(env, fenv, menv, funs, ps, vs);
    assert(bind_params(env, ps, vs) =~= env.push((x, v)));
    assert(bind_params(menv, ps, vs) =~= menv.push((x, v)));
}

/// The environment of a closure that is called: it holds the variables
/// that the closure sees and the functions that it sees, with its group.
pub proof fn lemma_env_call(cl: Clo, idx: int, funs: Seq<ClosureView>)
    requires
        clo_ok(cl, idx, funs),
    ensures
        0 <= idx < funs.len(),
        funs[idx].decl == cl.group[cl.index as int],
        cl.index < cl.group.len(),
        no_mangled(cl.group[cl.index as int].params),
        unmangled(cl.group[cl.index as int].body),
        env_rel(cl.env, group_env(cl.env, cl.fenv, cl.group), funs[idx].env, funs),
{
    let n = cl.group.len();
    let first = idx - cl.index;
    let inner = funs[idx].env;
    let outer = inner.take(inner.len() - n);
    assert(funs[first + cl.index] == (ClosureView { env: inner, decl: cl.group[cl.index as int] }));
    lemma_env_group(cl.env, cl.fenv, outer, funs, cl.group, first as nat);
}

/// What the bindings of a `let` from the one at `i` on and its body come
/// to.
pub open spec fn let_from(
    bs: Seq<(Name, Term)>,
    body: Term,
    i: int,
    env: EnvView,
    fenv: FunEnv,
    n: nat,
    out: Seq<char>,
) -> Res
    decreases bs.len() - i,
{
    if i < 0 || i >= bs.len() {
        beval(body, env, fenv, n, out)
    } else {
        match beval(bs[i].1, env, fenv, n, out) {
            Res::Fail(f, o) => Res::Fail(f, o),
            Res::Done(v, o) => let_from(bs, body, i + 1, env.push((bs[i].0, v)), fenv, n, o),
        }
    }
}

/// What the arguments from the one at `i` on come to, after the values
/// `done` of those before.
pub open spec fn args_from(
    args: Seq<Term>,
    i: int,
    done: Seq<SnakeVal>,
    env: EnvView,
    fenv: FunEnv,
    n: nat,
    out: Seq<char>,
) -> ResList
    decreases args.len() - i,
{
    if i < 0 || i >= args.len() {
        ResList::Done(done, out)
    } else {
        match beval(args[i], env, fenv, n, out) {
            Res::Fail(f, o) => ResList::Fail(f, o),
            Res::Done(v, o) => args_from(args, i + 1, done.push(v), env, fenv, n, o),
        }
    }
}

/// Bindings of which the first fail, fail.
pub proof fn lemma_bindings_fail(
    bs: Seq<(Name, Term)>,
    j: int,
    env: EnvView,
    fenv: FunEnv,
    n: nat,
    out: Seq<char>,
)
    requires
        0 <= j <= bs.len(),
        beval_bindings(bs.take(j), env, fenv, n, out) is Fail,
    ensures
        beval_bindings(bs, env, fenv, n, out) == beval_bindings(bs.take(j), env, fenv, n, out),
    decreases bs.len(),
{
    if j < bs.len() {
        assert(bs.drop_last().take(j) =~= bs.take(j));
        lemma_bindings_fail(bs.drop_last(), j, env, fenv, n, out);
    } else {
        assert(bs.take(j) =~= bs);
    }
}

/// Arguments of which the first fail, fail.
pub proof fn lemma_args_fail(
    args: Seq<Term>,
    j: int,
    env: EnvView,
    fenv: FunEnv,
    n: nat,
    out: Seq<char>,
)
    requires
        0 <= j <= args.len(),
        beval_args(args.take(j), env, fenv, n, out) is Fail,
    ensures
        beval_args(args, env, fenv, n, out) == beval_args(args.take(j), env, fenv, n, out),
    decreases args.len(),
{
    if j < args.len() {
        assert(args.drop_last().take(j) =~= args.take(j));
        lemma_args_fail(args.drop_last(), j, env, fenv, n, out);
    } else {
        assert(args.take(j) =~= args);
    }
}

/// A `let` comes to what its bindings from any place on and its body come
/// to, after the bindings before.
pub proof fn lemma_let_from(
    bs: Seq<(Name, Term)>,
    body: Term,
    i: int,
    env: EnvView,
    env_i: EnvView,
    fenv: FunEnv,
    n: nat,
    out: Seq<char>,
    out_i: Seq<char>,
)
    requires
        0 <= i <= bs.len(),
        beval_bindings(bs.take(i), env, fenv, n, out) == ResEnv::Done(env_i, out_i),
    ensures
        beval(Term::Let(bs, Box::new(body)), env, fenv, n, out) == let_from(
            bs,
            body,
            i,
            env_i,
            fenv,
            n,
            out_i,
        ),
    decreases bs.len() - i,
{
    if i == bs.len() {
        assert(bs.take(i) =~= bs);
    } else {
        let next = bs.take(i + 1);
        assert(next.drop_last() =~= bs.take(i));
        assert(next.last() == bs[i]);
        match beval(bs[i].1, env_i, fenv, n, out_i) {
            Res::Fail(f, o) => {
                assert(beval_bindings(next, env, fenv, n, out) == ResEnv::Fail(f, o));
                lemma_bindings_fail(bs, i + 1, env, fenv, n, out);
            },
            Res::Done(v, o) => {
                assert(beval_bindings(next, env, fenv, n, out) == ResEnv::Done(
                    env_i.push((bs[i].0, v)),
                    o,
                ));
                lemma_let_from(bs, body, i + 1, env, env_i.push((bs[i].0, v)), fenv, n, out, o);
            },
        }
    }
}

/// Arguments come to what those from any place on come to, after those
/// before.
pub proof fn lemma_args_from(
    args: Seq<Term>,
    i: int,
    done: Seq<SnakeVal>,
    env: EnvView,
    fenv: FunEnv,
    n: nat,
    out: Seq<char>,
    out_i: Seq<char>,
)
    requires
        0 <= i <= args.len(),
        beval_args(args.take(i), env, fenv, n, out) == ResList::Done(done, out_i),
    ensures
        beval_args(args, env, fenv, n, out) == args_from(args, i, done, env, fenv, n, out_i),
    decreases args.len() - i,
{
    if i == args.len() {
        assert(args.take(i) =~= args);
    } else {
        let next = args.take(i + 1);
        assert(next.drop_last() =~= args.take(i));
        assert(next.last() == args[i]);
        match beval(args[i], env, fenv, n, out_i) {
            Res::Fail(f, o) => {
                assert(beval_args(next, env, fenv, n, out) == ResList::Fail(f, o));
                lemma_args_fail(args, i + 1, env, fenv, n, out);
            },
            Res::Done(v, o) => {
                assert(beval_args(next, env, fenv, n, out) == ResList::Done(done.push(v), o));
                lemma_args_from(args, i + 1, done.push(v), env, fenv, n, out, o);
            },
        }
    }
}

/// Whether an evaluation ends for want of calls.
pub open spec fn out_of_fuel(r: Res) -> bool {
    r matches Res::Fail(f, _) && f == InterpFault::OutOfFuel
}

/// Whether the machine ends because its store is full.
pub open spec fn too_many(o: Outcome) -> bool {
    o matches Outcome::Failed(f, _) && f == stuck("too many functions"@)
}

/// The state in which the machine starts on an expression.
pub open spec fn descending(
    t: Term,
    menv: EnvView,
    stack: Seq<FrameView>,
    funs: Seq<ClosureView>,
    out: Seq<char>,
) -> Config {
    Config { control: ControlView::Descending(t, menv), stack, funs, out }
}

/// The state in which the machine has a value.
pub open spec fn returning(
    v: SnakeVal,
    stack: Seq<FrameView>,
    funs: Seq<ClosureView>,
    out: Seq<char>,
) -> Config {
    Config { control: ControlView::Returning(v), stack, funs, out }
}

/// What the machine comes to in `fuel` steps after a step.
pub open spec fn go(o: Outcome, fuel: nat) -> Outcome {
    match o {
        Outcome::Running(c) => run(c, fuel),
        end => end,
    }
}

/// What the machine comes to in `fuel` steps once it has the result of an
/// evaluation.
pub open spec fn resume(
    r: Res,
    stack: Seq<FrameView>,
    funs: Seq<ClosureView>,
    fuel: nat,
) -> Outcome {
    match r {
        Res::Done(v, o) => run(returning(v, stack, funs, o), fuel),
        Res::Fail(f, o) => Outcome::Failed(f, o),
    }
}

/// Whether, from the outcome `o` of a step and over whatever frames wait
/// on `stack`, the machine with `k` steps or more comes to where it goes on
/// with the result `r` and the store `funs2`, unless its store is full.
pub open spec fn reaches(
    o: Outcome,
    r: Res,
    stack: Seq<FrameView>,
    funs2: Seq<ClosureView>,
    k: nat,
) -> bool {
    forall|fuel: nat|
        fuel >= k ==> too_many(#[trigger] go(o, fuel)) || go(o, fuel) == resume(
            r,
            stack,
            funs2,
            (fuel - k) as nat,
        )
}

/// What a step leaves of a result: the machine with the value, or the
/// error.
pub open spec fn landed(r: Res, stack: Seq<FrameView>, funs: Seq<ClosureView>) -> Outcome {
    match r {
        Res::Done(v, o) => Outcome::Running(returning(v, stack, funs, o)),
        Res::Fail(f, o) => Outcome::Failed(f, o),
    }
}

/// Whether the machine ends for want of steps, or because its store is
/// full.
pub open spec fn cut_short(o: Outcome) -> bool {
    o matches Outcome::Failed(f, _) && (f == InterpFault::OutOfFuel || f == stuck(
        "too many functions"@,
    ))
}

/// Whether, from the outcome `o` of a step, the machine with `m` steps or
/// fewer is cut short.
pub open spec fn starved(o: Outcome, m: nat) -> bool {
    forall|fuel: nat| fuel <= m ==> cut_short(#[trigger] go(o, fuel))
}

/// Whether the machine follows an evaluation with `n` nested calls
/// allowed, from the outcome `o` of a step: where the evaluation comes to
/// a result, the machine reaches it in `k` steps; where the evaluation
/// ends for want of calls, the machine with `n` steps or fewer is cut
/// short.
pub open spec fn follows(
    o: Outcome,
    r: Res,
    stack: Seq<FrameView>,
    funs2: Seq<ClosureView>,
    k: nat,
    n: nat,
) -> bool {
    if out_of_fuel(r) {
        starved(o, n)
    } else {
        reaches(o, r, stack, funs2, k)
    }
}

/// More steps do not change what the machine came to, unless it was cut
/// short for want of steps.
pub proof fn lemma_run_more(c: Config, fuel: nat, more: nat)
    requires
        fuel <= more,
        !(run(c, fuel) matches Outcome::Failed(f, _) && f == InterpFault::OutOfFuel),
    ensures
        run(c, more) == run(c, fuel),
    decreases fuel,
{
    if fuel > 0 {
        match step(c) {
            Outcome::Running(next) => {
                lemma_run_more(next, (fuel - 1) as nat, (more - 1) as nat);
            },
            _ => {},
        }
    }
}

/// One step more: the machine follows from a state where it follows from
/// what the step leaves.
pub proof fn lemma_step_from(
    c: Config,
    r: Res,
    stack: Seq<FrameView>,
    funs2: Seq<ClosureView>,
    k: nat,
    m: nat,
    n: nat,
)
    requires
        follows(step(c), r, stack, funs2, k, m),
        n <= m + 1,
    ensures
        follows(Outcome::Running(c), r, stack, funs2, k + 1, n),
{
    if out_of_fuel(r) {
        assert forall|fuel: nat| fuel <= n implies cut_short(
            #[trigger] go(Outcome::Running(c), fuel),
        ) by {
            if fuel > 0 {
                let less = (fuel - 1) as nat;
                assert(go(Outcome::Running(c), fuel) == go(step(c), less));
                assert(cut_short(go(step(c), less)));
            }
        }
    } else {
        assert forall|fuel: nat| fuel >= k + 1 implies too_many(
            #[trigger] go(Outcome::Running(c), fuel),
        ) || go(Outcome::Running(c), fuel) == resume(r, stack, funs2, (fuel - (k + 1)) as nat) by {
            let less = (fuel - 1) as nat;
            assert(go(Outcome::Running(c), fuel) == go(step(c), less));
            assert(too_many(go(step(c), less)) || go(step(c), less) == resume(
                r,
                stack,
                funs2,
                (less - k) as nat,
            ));
        }
    }
}

/// One step more.
pub proof fn lemma_step(
    c: Config,
    r: Res,
    stack: Seq<FrameView>,
    funs2: Seq<ClosureView>,
    k: nat,
    n: nat,
)
    requires
        follows(step(c), r, stack, funs2, k, n),
    ensures
        follows(Outcome::Running(c), r, stack, funs2, k + 1, n),
{
    lemma_step_from(c, r, stack, funs2, k, n, n);
}

/// One run after another.
pub proof fn lemma_after(
    o: Outcome,
    v: SnakeVal,
    o1: Seq<char>,
    stack1: Seq<FrameView>,
    funs1: Seq<ClosureView>,
    k1: nat,
    r: Res,
    stack: Seq<FrameView>,
    funs2: Seq<ClosureView>,
    k2: nat,
    n: nat,
)
    requires
        follows(o, Res::Done(v, o1), stack1, funs1, k1, n),
        follows(Outcome::Running(returning(v, stack1, funs1, o1)), r, stack, funs2, k2, n),
    ensures
        follows(o, r, stack, funs2, k1 + k2, n),
{
    let mid = Outcome::Running(returning(v, stack1, funs1, o1));
    assert(reaches(o, Res::Done(v, o1), stack1, funs1, k1));
    if out_of_fuel(r) {
        assert forall|fuel: nat| fuel <= n implies cut_short(#[trigger] go(o, fuel)) by {
            if fuel >= k1 {
                let less = (fuel - k1) as nat;
                assert(too_many(go(o, fuel)) || go(o, fuel) == resume(
                    Res::Done(v, o1),
                    stack1,
                    funs1,
                    less,
                ));
                assert(resume(Res::Done(v, o1), stack1, funs1, less) == go(mid, less));
                assert(cut_short(go(mid, less)));
            } else {
                assert(too_many(go(o, k1)) || go(o, k1) == resume(
                    Res::Done(v, o1),
                    stack1,
                    funs1,
                    0,
                ));
                assert(resume(Res::Done(v, o1), stack1, funs1, 0) == go(mid, 0));
                assert(cut_short(go(mid, 0)));
                assert(cut_short(go(o, k1)));
                if let Outcome::Running(c) = o {
                    if !cut_short(go(o, fuel)) {
                        lemma_run_more(c, fuel, k1);
                    }
                }
            }
        }
    } else {
        assert forall|fuel: nat| fuel >= k1 + k2 implies too_many(#[trigger] go(o, fuel)) || go(
            o,
            fuel,
        ) == resume(r, stack, funs2, (fuel - (k1 + k2)) as nat) by {
            let less = (fuel - k1) as nat;
            assert(too_many(go(o, fuel)) || go(o, fuel) == resume(
                Res::Done(v, o1),
                stack1,
                funs1,
                less,
            ));
            assert(resume(Res::Done(v, o1), stack1, funs1, less) == go(mid, less));
            assert(too_many(go(mid, less)) || go(mid, less) == resume(
                r,
                stack,
                funs2,
                (less - k2) as nat,
            ));
        }
    }
}

/// A run that fails, fails whatever waits.
pub proof fn lemma_failed(
    o: Outcome,
    f: InterpFault,
    o1: Seq<char>,
    stack1: Seq<FrameView>,
    funs1: Seq<ClosureView>,
    k: nat,
    stack: Seq<FrameView>,
    funs2: Seq<ClosureView>,
    n: nat,
)
    requires
        follows(o, Res::Fail(f, o1), stack1, funs1, k, n),
    ensures
        follows(o, Res::Fail(f, o1), stack, funs2, k, n),
{
    if !out_of_fuel(Res::Fail(f, o1)) {
        assert forall|fuel: nat| fuel >= k implies too_many(#[trigger] go(o, fuel)) || go(o, fuel)
            == resume(Res::Fail(f, o1), stack, funs2, (fuel - k) as nat) by {
            assert(too_many(go(o, fuel)) || go(o, fuel) == resume(
                Res::Fail(f, o1),
                stack1,
                funs1,
                (fuel - k) as nat,
            ));
        }
    }
}

/// A step that ends the run, or leaves the machine with the value.
pub proof fn lemma_there(r: Res, stack: Seq<FrameView>, funs: Seq<ClosureView>, n: nat)
    ensures
        follows(landed(r, stack, funs), r, stack, funs, 0, n),
{
    let o = landed(r, stack, funs);
    if out_of_fuel(r) {
        assert forall|fuel: nat| fuel <= n implies cut_short(#[trigger] go(o, fuel)) by {}
    } else {
        assert forall|fuel: nat| fuel >= 0 implies too_many(#[trigger] go(o, fuel)) || go(o, fuel)
            == resume(r, stack, funs, (fuel - 0) as nat) by {}
    }
}

/// A step at which the store is full.
pub proof fn lemma_full(c: Config, r: Res, stack: Seq<FrameView>, funs: Seq<ClosureView>, n: nat)
    requires
        too_many(step(c)),
    ensures
        follows(Outcome::Running(c), r, stack, funs, 1, n),
{
    let o = Outcome::Running(c);
    if out_of_fuel(r) {
        assert forall|fuel: nat| fuel <= n implies cut_short(#[trigger] go(o, fuel)) by {
            if fuel > 0 {
                assert(go(o, fuel) == step(c));
            }
        }
    } else {
        assert forall|fuel: nat| fuel >= 1 implies too_many(#[trigger] go(o, fuel)) by {
            assert(go(o, fuel) == step(c));
        }
    }
}

/// A store that holds more than one that holds more.
pub proof fn lemma_extends(a: Seq<ClosureView>, b: Seq<ClosureView>, c: Seq<ClosureView>)
    requires
        extends(b, a),
        extends(c, b),
    ensures
        extends(c, a),
{
}

/// What a call of a closure with the values of its arguments comes to.
pub open spec fn call_result(cl: Clo, vs: Seq<SnakeVal>, n: nat, out: Seq<char>) -> Res {
    match closure_fault(cl, vs.len(), n) {
        Some(e) => Res::Fail(e, out),
        None => if n > 0 {
            beval(
                clo_decl(cl).body,
                bind_params(cl.env, clo_decl(cl).params, vs),
                group_env(cl.env, cl.fenv, cl.group),
                (n - 1) as nat,
                out,
            )
        } else {
            Res::Fail(InterpFault::OutOfFuel, out)
        },
    }
}

/// What a call comes to from its argument at `i` on.
pub open spec fn call_from(
    args: Seq<Term>,
    i: int,
    done: Seq<SnakeVal>,
    cl: Clo,
    env: EnvView,
    fenv: FunEnv,
    n: nat,
    out: Seq<char>,
) -> Res {
    match args_from(args, i, done, env, fenv, n, out) {
        ResList::Fail(e, o) => Res::Fail(e, o),
        ResList::Done(vs, o) => call_result(cl, vs, n, o),
    }
}

/// A step that comes to the result.
pub proof fn lemma_one_step(
    c: Config,
    r: Res,
    stack: Seq<FrameView>,
    funs: Seq<ClosureView>,
    n: nat,
)
    requires
        step(c) == landed(r, stack, funs),
    ensures
        follows(Outcome::Running(c), r, stack, funs, 1, n),
{
    lemma_there(r, stack, funs, n);
    lemma_step(c, r, stack, funs, 0, n);
}

/// The machine follows the evaluation of an expression: from the state
/// in which it starts on the expression, over whatever frames wait, it
/// follows the evaluation with the number of steps and to the store that
/// the lemma gives, a store that holds what the machine held.
pub proof fn lemma_simulate(
    t: Term,
    env: EnvView,
    fenv: FunEnv,
    menv: EnvView,
    funs: Seq<ClosureView>,
    n: nat,
    out: Seq<char>,
) -> (r: (nat, Seq<ClosureView>))
    requires
        unmangled(t),
        env_rel(env, fenv, menv, funs),
    ensures
        extends(r.1, funs),
        r.1.len() <= usize::MAX,
        forall|stack: Seq<FrameView>|
            follows(
                Outcome::Running(#[trigger] descending(t, menv, stack, funs, out)),
                beval(t, env, fenv, n, out),
                stack,
                r.1,
                r.0,
                n,
            ),
    decreases n, t, 1nat, 0nat,
{
    let whole = beval(t, env, fenv, n, out);
    match t {
        Term::Var(x) => {
            assert(lookup(menv, x) == lookup(env, x));
            assert forall|stack: Seq<FrameView>|
                follows(
                    Outcome::Running(#[trigger] descending(t, menv, stack, funs, out)),
                    whole,
                    stack,
                    funs,
                    1,
                    n,
                ) by {
                lemma_one_step(descending(t, menv, stack, funs, out), whole, stack, funs, n);
            }
            (1, funs)
        },
        Term::Prim(p, args) => {
            if args.len() != p.arity() {
                assert forall|stack: Seq<FrameView>|
                    follows(
                        Outcome::Running(#[trigger] descending(t, menv, stack, funs, out)),
                        whole,
                        stack,
                        funs,
                        1,
                        n,
                    ) by {
                    lemma_one_step(descending(t, menv, stack, funs, out), whole, stack, funs, n);
                }
                (1, funs)
            } else if p.arity() == 1 {
                lemma_simulate_unary(p, args, env, fenv, menv, funs, n, out)
            } else {
                lemma_simulate_binary(p, args, env, fenv, menv, funs, n, out)
            }
        },
        Term::If(c, a, b) => lemma_simulate_if(*c, *a, *b, env, fenv, menv, funs, n, out),
        Term::Let(bs, body) => lemma_simulate_bindings(bs, *body, env, fenv, menv, funs, n, out),
        Term::FunDefs(ds, body) => lemma_simulate_group(ds, *body, env, fenv, menv, funs, n, out),
        Term::Call(f, args) => lemma_simulate_call(f, args, env, fenv, menv, funs, n, out),
        _ => {
            assert forall|stack: Seq<FrameView>|
                follows(
                    Outcome::Running(#[trigger] descending(t, menv, stack, funs, out)),
                    whole,
                    stack,
                    funs,
                    1,
                    n,
                ) by {
                lemma_one_step(descending(t, menv, stack, funs, out), whole, stack, funs, n);
            }
            (1, funs)
        },
    }
}

/// The machine on a primitive of one operand.
pub proof fn lemma_simulate_unary(
    p: Prim,
    args: Seq<Term>,
    env: EnvView,
    fenv: FunEnv,
    menv: EnvView,
    funs: Seq<ClosureView>,
    n: nat,
    out: Seq<char>,
) -> (r: (nat, Seq<ClosureView>))
    requires
        args.len() == 1,
        p.arity() == 1,
        unmangled(Term::Prim(p, args)),
        env_rel(env, fenv, menv, funs),
    ensures
        extends(r.1, funs),
        r.1.len() <= usize::MAX,
        forall|stack: Seq<FrameView>|
            follows(
                Outcome::Running(
                    #[trigger] descending(Term::Prim(p, args), menv, stack, funs, out),
                ),
                beval(Term::Prim(p, args), env, fenv, n, out),
                stack,
                r.1,
                r.0,
                n,
            ),
    decreases n, Term::Prim(p, args), 0nat, 0nat,
{
    let t = Term::Prim(p, args);
    let whole = beval(t, env, fenv, n, out);
    let none = Seq::<SnakeVal>::empty();
    assert(args.take(0).len() == 0);
    lemma_args_from(args, 0, none, env, fenv, n, out, out);
    reveal_with_fuel(args_from, 3);
    let (k1, f1) = lemma_simulate(args[0], env, fenv, menv, funs, n, out);
    let frame = FrameView::Prim1(p);
    match beval(args[0], env, fenv, n, out) {
        Res::Fail(f, o1) => {
            assert forall|stack: Seq<FrameView>|
                follows(
                    Outcome::Running(#[trigger] descending(t, menv, stack, funs, out)),
                    whole,
                    stack,
                    f1,
                    k1 + 1,
                    n,
                ) by {
                let st = stack.push(frame);
                let first = Outcome::Running(descending(args[0], menv, st, funs, out));
                lemma_failed(first, f, o1, st, f1, k1, stack, f1, n);
                lemma_step(descending(t, menv, stack, funs, out), whole, stack, f1, k1, n);
            }
            (k1 + 1, f1)
        },
        Res::Done(v, o1) => {
            assert(none.push(v)[0] == v);
            assert forall|stack: Seq<FrameView>|
                follows(
                    Outcome::Running(#[trigger] descending(t, menv, stack, funs, out)),
                    whole,
                    stack,
                    f1,
                    k1 + 2,
                    n,
                ) by {
                let st = stack.push(frame);
                let first = Outcome::Running(descending(args[0], menv, st, funs, out));
                assert(st.drop_last() =~= stack);
                lemma_one_step(returning(v, st, f1, o1), whole, stack, f1, n);
                lemma_after(first, v, o1, st, f1, k1, whole, stack, f1, 1, n);
                lemma_step(descending(t, menv, stack, funs, out), whole, stack, f1, k1 + 1, n);
            }
            (k1 + 2, f1)
        },
    }
}

/// The machine on a primitive of two operands.
pub proof fn lemma_simulate_binary(
    p: Prim,
    args: Seq<Term>,
    env: EnvView,
    fenv: FunEnv,
    menv: EnvView,
    funs: Seq<ClosureView>,
    n: nat,
    out: Seq<char>,
) -> (r: (nat, Seq<ClosureView>))
    requires
        args.len() == 2,
        p.arity() == 2,
        unmangled(Term::Prim(p, args)),
        env_rel(env, fenv, menv, funs),
    ensures
        extends(r.1, funs),
        r.1.len() <= usize::MAX,
        forall|stack: Seq<FrameView>|
            follows(
                Outcome::Running(
                    #[trigger] descending(Term::Prim(p, args), menv, stack, funs, out),
                ),
                beval(Term::Prim(p, args), env, fenv, n, out),
                stack,
                r.1,
                r.0,
                n,
            ),
    decreases n, Term::Prim(p, args), 0nat, 0nat,
{
    let t = Term::Prim(p, args);
    let whole = beval(t, env, fenv, n, out);
    let none = Seq::<SnakeVal>::empty();
    assert(args.take(0).len() == 0);
    lemma_args_from(args, 0, none, env, fenv, n, out, out);
    reveal_with_fuel(args_from, 4);
    let (k1, f1) = lemma_simulate(args[0], env, fenv, menv, funs, n, out);
    let left = FrameView::Prim2L(p, args[1], menv);
    match beval(args[0], env, fenv, n, out) {
        Res::Fail(f, o1) => {
            assert forall|stack: Seq<FrameView>|
                follows(
                    Outcome::Running(#[trigger] descending(t, menv, stack, funs, out)),
                    whole,
                    stack,
                    f1,
                    k1 + 1,
                    n,
                ) by {
                let st = stack.push(left);
                let first = Outcome::Running(descending(args[0], menv, st, funs, out));
                lemma_failed(first, f, o1, st, f1, k1, stack, f1, n);
                lemma_step(descending(t, menv, stack, funs, out), whole, stack, f1, k1, n);
            }
            (k1 + 1, f1)
        },
        Res::Done(v1, o1) => {
            lemma_env_more(env, fenv, menv, funs, f1);
            let (k2, f2) = lemma_simulate(args[1], env, fenv, menv, f1, n, o1);
            lemma_extends(funs, f1, f2);
            let right = FrameView::Prim2R(p, v1);
            match beval(args[1], env, fenv, n, o1) {
                Res::Fail(f, o2) => {
                    assert forall|stack: Seq<FrameView>|
                        follows(
                            Outcome::Running(#[trigger] descending(t, menv, stack, funs, out)),
                            whole,
                            stack,
                            f2,
                            k1 + k2 + 2,
                            n,
                        ) by {
                        let st = stack.push(left);
                        let st2 = stack.push(right);
                        let first = Outcome::Running(descending(args[0], menv, st, funs, out));
                        let second = Outcome::Running(descending(args[1], menv, st2, f1, o1));
                        assert(st.drop_last() =~= stack);
                        lemma_failed(second, f, o2, st2, f2, k2, stack, f2, n);
                        lemma_step(returning(v1, st, f1, o1), whole, stack, f2, k2, n);
                        lemma_after(first, v1, o1, st, f1, k1, whole, stack, f2, k2 + 1, n);
                        lemma_step(
                            descending(t, menv, stack, funs, out),
                            whole,
                            stack,
                            f2,
                            k1 + k2 + 1,
                            n,
                        );
                    }
                    (k1 + k2 + 2, f2)
                },
                Res::Done(v2, o2) => {
                    assert(none.push(v1).push(v2)[0] == v1);
                    assert(none.push(v1).push(v2)[1] == v2);
                    assert forall|stack: Seq<FrameView>|
                        follows(
                            Outcome::Running(#[trigger] descending(t, menv, stack, funs, out)),
                            whole,
                            stack,
                            f2,
                            k1 + k2 + 3,
                            n,
                        ) by {
                        let st = stack.push(left);
                        let st2 = stack.push(right);
                        let first = Outcome::Running(descending(args[0], menv, st, funs, out));
                        let second = Outcome::Running(descending(args[1], menv, st2, f1, o1));
                        assert(st.drop_last() =~= stack);
                        assert(st2.drop_last() =~= stack);
                        lemma_one_step(returning(v2, st2, f2, o2), whole, stack, f2, n);
                        lemma_after(second, v2, o2, st2, f2, k2, whole, stack, f2, 1, n);
                        lemma_step(returning(v1, st, f1, o1), whole, stack, f2, k2 + 1, n);
                        lemma_after(first, v1, o1, st, f1, k1, whole, stack, f2, k2 + 2, n);
                        lemma_step(
                            descending(t, menv, stack, funs, out),
                            whole,
                            stack,
                            f2,
                            k1 + k2 + 2,
                            n,
                        );
                    }
                    (k1 + k2 + 3, f2)
                },
            }
        },
    }
}

/// The machine on a conditional.
pub proof fn lemma_simulate_if(
    c: Term,
    a: Term,
    b: Term,
    env: EnvView,
    fenv: FunEnv,
    menv: EnvView,
    funs: Seq<ClosureView>,
    n: nat,
    out: Seq<char>,
) -> (r: (nat, Seq<ClosureView>))
    requires
        unmangled(Term::If(Box::new(c), Box::new(a), Box::new(b))),
        env_rel(env, fenv, menv, funs),
    ensures
        extends(r.1, funs),
        r.1.len() <= usize::MAX,
        forall|stack: Seq<FrameView>|
            follows(
                Outcome::Running(
                    #[trigger] descending(
                        Term::If(Box::new(c), Box::new(a), Box::new(b)),
                        menv,
                        stack,
                        funs,
                        out,
                    ),
                ),
                beval(Term::If(Box::new(c), Box::new(a), Box::new(b)), env, fenv, n, out),
                stack,
                r.1,
                r.0,
                n,
            ),
    decreases n, Term::If(Box::new(c), Box::new(a), Box::new(b)), 0nat, 0nat,
{
    let t = Term::If(Box::new(c), Box::new(a), Box::new(b));
    let whole = beval(t, env, fenv, n, out);
    let frame = FrameView::If(a, b, menv);
    let (k1, f1) = lemma_simulate(c, env, fenv, menv, funs, n, out);
    match beval(c, env, fenv, n, out) {
        Res::Fail(f, o1) => {
            assert forall|stack: Seq<FrameView>|
                follows(
                    Outcome::Running(#[trigger] descending(t, menv, stack, funs, out)),
                    whole,
                    stack,
                    f1,
                    k1 + 1,
                    n,
                ) by {
                let st = stack.push(frame);
                let first = Outcome::Running(descending(c, menv, st, funs, out));
                lemma_failed(first, f, o1, st, f1, k1, stack, f1, n);
                lemma_step(descending(t, menv, stack, funs, out), whole, stack, f1, k1, n);
            }
            (k1 + 1, f1)
        },
        Res::Done(v, o1) => match choice(v) {
            Err(f) => {
                assert forall|stack: Seq<FrameView>|
                    follows(
                        Outcome::Running(#[trigger] descending(t, menv, stack, funs, out)),
                        whole,
                        stack,
                        f1,
                        k1 + 2,
                        n,
                    ) by {
                    let st = stack.push(frame);
                    let first = Outcome::Running(descending(c, menv, st, funs, out));
                    assert(st.drop_last() =~= stack);
                    lemma_one_step(returning(v, st, f1, o1), whole, stack, f1, n);
                    lemma_after(first, v, o1, st, f1, k1, whole, stack, f1, 1, n);
                    lemma_step(descending(t, menv, stack, funs, out), whole, stack, f1, k1 + 1, n);
                }
                (k1 + 2, f1)
            },
            Ok(yes) => {
                let branch = if yes {
                    a
                } else {
                    b
                };
                lemma_env_more(env, fenv, menv, funs, f1);
                let (k2, f2) = lemma_simulate(branch, env, fenv, menv, f1, n, o1);
                lemma_extends(funs, f1, f2);
                assert forall|stack: Seq<FrameView>|
                    follows(
                        Outcome::Running(#[trigger] descending(t, menv, stack, funs, out)),
                        whole,
                        stack,
                        f2,
                        k1 + k2 + 2,
                        n,
                    ) by {
                    let st = stack.push(frame);
                    let first = Outcome::Running(descending(c, menv, st, funs, out));
                    assert(st.drop_last() =~= stack);
                    assert(follows(
                        Outcome::Running(descending(branch, menv, stack, f1, o1)),
                        whole,
                        stack,
                        f2,
                        k2,
                        n,
                    ));
                    lemma_step(returning(v, st, f1, o1), whole, stack, f2, k2, n);
                    lemma_after(first, v, o1, st, f1, k1, whole, stack, f2, k2 + 1, n);
                    lemma_step(
                        descending(t, menv, stack, funs, out),
                        whole,
                        stack,
                        f2,
                        k1 + k2 + 1,
                        n,
                    );
                }
                (k1 + k2 + 2, f2)
            },
        },
    }
}

/// The machine on a `let`.
pub proof fn lemma_simulate_bindings(
    bs: Seq<(Name, Term)>,
    body: Term,
    env: EnvView,
    fenv: FunEnv,
    menv: EnvView,
    funs: Seq<ClosureView>,
    n: nat,
    out: Seq<char>,
) -> (r: (nat, Seq<ClosureView>))
    requires
        unmangled(Term::Let(bs, Box::new(body))),
        env_rel(env, fenv, menv, funs),
    ensures
        extends(r.1, funs),
        r.1.len() <= usize::MAX,
        forall|stack: Seq<FrameView>|
            follows(
                Outcome::Running(
                    #[trigger] descending(Term::Let(bs, Box::new(body)), menv, stack, funs, out),
                ),
                beval(Term::Let(bs, Box::new(body)), env, fenv, n, out),
                stack,
                r.1,
                r.0,
                n,
            ),
    decreases n, Term::Let(bs, Box::new(body)), 0nat, bs.len() + 1,
{
    let t = Term::Let(bs, Box::new(body));
    let whole = beval(t, env, fenv, n, out);
    assert(bs.take(0).len() == 0);
    lemma_let_from(bs, body, 0, env, env, fenv, n, out, out);
    if bs.len() == 0 {
        let (k1, f1) = lemma_simulate(body, env, fenv, menv, funs, n, out);
        assert forall|stack: Seq<FrameView>|
            follows(
                Outcome::Running(#[trigger] descending(t, menv, stack, funs, out)),
                whole,
                stack,
                f1,
                k1 + 1,
                n,
            ) by {
            assert(follows(
                Outcome::Running(descending(body, menv, stack, funs, out)),
                whole,
                stack,
                f1,
                k1,
                n,
            ));
            lemma_step(descending(t, menv, stack, funs, out), whole, stack, f1, k1, n);
        }
        (k1 + 1, f1)
    } else {
        let (k1, f1) = lemma_simulate_let(bs, body, 0, env, fenv, menv, funs, n, out);
        assert forall|stack: Seq<FrameView>|
            follows(
                Outcome::Running(#[trigger] descending(t, menv, stack, funs, out)),
                whole,
                stack,
                f1,
                k1 + 1,
                n,
            ) by {
            let st = stack.push(FrameView::Let(bs[0].0, menv, bs.skip(1), body));
            assert(follows(
                Outcome::Running(descending(bs[0].1, menv, st, funs, out)),
                whole,
                stack,
                f1,
                k1,
                n,
            ));
            lemma_step(descending(t, menv, stack, funs, out), whole, stack, f1, k1, n);
        }
        (k1 + 1, f1)
    }
}

/// The machine on a group of functions and what stands in its scope.
pub proof fn lemma_simulate_group(
    ds: Seq<FunTerm>,
    body: Term,
    env: EnvView,
    fenv: FunEnv,
    menv: EnvView,
    funs: Seq<ClosureView>,
    n: nat,
    out: Seq<char>,
) -> (r: (nat, Seq<ClosureView>))
    requires
        unmangled(Term::FunDefs(ds, Box::new(body))),
        env_rel(env, fenv, menv, funs),
    ensures
        extends(r.1, funs),
        r.1.len() <= usize::MAX,
        forall|stack: Seq<FrameView>|
            follows(
                Outcome::Running(
                    #[trigger] descending(
                        Term::FunDefs(ds, Box::new(body)),
                        menv,
                        stack,
                        funs,
                        out,
                    ),
                ),
                beval(Term::FunDefs(ds, Box::new(body)), env, fenv, n, out),
                stack,
                r.1,
                r.0,
                n,
            ),
    decreases n, Term::FunDefs(ds, Box::new(body)), 0nat, 0nat,
{
    let t = Term::FunDefs(ds, Box::new(body));
    let whole = beval(t, env, fenv, n, out);
    if funs.len() + ds.len() > usize::MAX {
        assert forall|stack: Seq<FrameView>|
            follows(
                Outcome::Running(#[trigger] descending(t, menv, stack, funs, out)),
                whole,
                stack,
                funs,
                1,
                n,
            ) by {
            lemma_full(descending(t, menv, stack, funs, out), whole, stack, funs, n);
        }
        (1, funs)
    } else {
        let first = funs.len();
        let inner = bind_group(menv, ds, first);
        let funs1 = funs + group_closures(inner, ds);
        assert(extends(funs1, funs));
        lemma_env_more(env, fenv, menv, funs, funs1);
        assert forall|j: int| 0 <= j < ds.len() implies #[trigger] funs1[first + j] == (
        ClosureView { env: inner, decl: ds[j] }) by {
            assert(funs1[first + j] == group_closures(inner, ds)[j]);
        }
        lemma_env_group(env, fenv, menv, funs1, ds, first);
        let (k1, f1) = lemma_simulate(body, env, group_env(env, fenv, ds), inner, funs1, n, out);
        lemma_extends(funs, funs1, f1);
        assert forall|stack: Seq<FrameView>|
            follows(
                Outcome::Running(#[trigger] descending(t, menv, stack, funs, out)),
                whole,
                stack,
                f1,
                k1 + 1,
                n,
            ) by {
            assert(follows(
                Outcome::Running(descending(body, inner, stack, funs1, out)),
                whole,
                stack,
                f1,
                k1,
                n,
            ));
            lemma_step(descending(t, menv, stack, funs, out), whole, stack, f1, k1, n);
        }
        (k1 + 1, f1)
    }
}

/// The machine on the bindings of a `let` from the one at `i` on, and on
/// its body.
pub proof fn lemma_simulate_let(
    bs: Seq<(Name, Term)>,
    body: Term,
    i: int,
    env: EnvView,
    fenv: FunEnv,
    menv: EnvView,
    funs: Seq<ClosureView>,
    n: nat,
    out: Seq<char>,
) -> (r: (nat, Seq<ClosureView>))
    requires
        0 <= i < bs.len(),
        unmangled(Term::Let(bs, Box::new(body))),
        env_rel(env, fenv, menv, funs),
    ensures
        extends(r.1, funs),
        r.1.len() <= usize::MAX,
        forall|stack: Seq<FrameView>|
            follows(
                Outcome::Running(
                    #[trigger] descending(
                        bs[i].1,
                        menv,
                        stack.push(FrameView::Let(bs[i].0, menv, bs.skip(i + 1), body)),
                        funs,
                        out,
                    ),
                ),
                let_from(bs, body, i, env, fenv, n, out),
                stack,
                r.1,
                r.0,
                n,
            ),
    decreases n, Term::Let(bs, Box::new(body)), 0nat, bs.len() - i,
{
    let whole = let_from(bs, body, i, env, fenv, n, out);
    let x = bs[i].0;
    let left = bs.skip(i + 1);
    let frame = FrameView::Let(x, menv, left, body);
    match Term::Let(bs, Box::new(body)) {
        Term::Let(xs, _) => {
            assert(xs == bs);
        },
        _ => {},
    }
    let (k1, f1) = lemma_simulate(bs[i].1, env, fenv, menv, funs, n, out);
    match beval(bs[i].1, env, fenv, n, out) {
        Res::Fail(f, o1) => {
            assert forall|stack: Seq<FrameView>|
                follows(
                    Outcome::Running(
                        #[trigger] descending(bs[i].1, menv, stack.push(frame), funs, out),
                    ),
                    whole,
                    stack,
                    f1,
                    k1,
                    n,
                ) by {
                let st = stack.push(frame);
                let first = Outcome::Running(descending(bs[i].1, menv, st, funs, out));
                lemma_failed(first, f, o1, st, f1, k1, stack, f1, n);
            }
            (k1, f1)
        },
        Res::Done(v, o1) => {
            let env1 = env.push((x, v));
            let menv1 = menv.push((x, v));
            lemma_env_more(env, fenv, menv, funs, f1);
            lemma_env_push(env, fenv, menv, f1, x, v);
            if i + 1 == bs.len() {
                assert(let_from(bs, body, i + 1, env1, fenv, n, o1) == beval(
                    body,
                    env1,
                    fenv,
                    n,
                    o1,
                ));
                assert(whole == beval(body, env1, fenv, n, o1));
                let (k2, f2) = lemma_simulate(body, env1, fenv, menv1, f1, n, o1);
                lemma_extends(funs, f1, f2);
                assert forall|stack: Seq<FrameView>|
                    follows(
                        Outcome::Running(
                            #[trigger] descending(bs[i].1, menv, stack.push(frame), funs, out),
                        ),
                        whole,
                        stack,
                        f2,
                        k1 + k2 + 1,
                        n,
                    ) by {
                    let st = stack.push(frame);
                    let first = Outcome::Running(descending(bs[i].1, menv, st, funs, out));
                    assert(st.drop_last() =~= stack);
                    assert(follows(
                        Outcome::Running(descending(body, menv1, stack, f1, o1)),
                        whole,
                        stack,
                        f2,
                        k2,
                        n,
                    ));
                    lemma_step(returning(v, st, f1, o1), whole, stack, f2, k2, n);
                    lemma_after(first, v, o1, st, f1, k1, whole, stack, f2, k2 + 1, n);
                }
                (k1 + k2 + 1, f2)
            } else {
                let (k2, f2) = lemma_simulate_let(bs, body, i + 1, env1, fenv, menv1, f1, n, o1);
                lemma_extends(funs, f1, f2);
                assert(left[0] == bs[i + 1]);
                assert(left.skip(1) =~= bs.skip(i + 2));
                assert forall|stack: Seq<FrameView>|
                    follows(
                        Outcome::Running(
                            #[trigger] descending(bs[i].1, menv, stack.push(frame), funs, out),
                        ),
                        whole,
                        stack,
                        f2,
                        k1 + k2 + 1,
                        n,
                    ) by {
                    let st = stack.push(frame);
                    let first = Outcome::Running(descending(bs[i].1, menv, st, funs, out));
                    let next = FrameView::Let(bs[i + 1].0, menv1, bs.skip(i + 2), body);
                    assert(st.drop_last() =~= stack);
                    assert(follows(
                        Outcome::Running(
                            descending(bs[i + 1].1, menv1, stack.push(next), f1, o1),
                        ),
                        whole,
                        stack,
                        f2,
                        k2,
                        n,
                    ));
                    lemma_step(returning(v, st, f1, o1), whole, stack, f2, k2, n);
                    lemma_after(first, v, o1, st, f1, k1, whole, stack, f2, k2 + 1, n);
                }
                (k1 + k2 + 1, f2)
            }
        },
    }
}

/// The machine on a call.
pub proof fn lemma_simulate_call(
    f: Name,
    args: Seq<Term>,
    env: EnvView,
    fenv: FunEnv,
    menv: EnvView,
    funs: Seq<ClosureView>,
    n: nat,
    out: Seq<char>,
) -> (r: (nat, Seq<ClosureView>))
    requires
        unmangled(Term::Call(f, args)),
        env_rel(env, fenv, menv, funs),
    ensures
        extends(r.1, funs),
        r.1.len() <= usize::MAX,
        forall|stack: Seq<FrameView>|
            follows(
                Outcome::Running(
                    #[trigger] descending(Term::Call(f, args), menv, stack, funs, out),
                ),
                beval(Term::Call(f, args), env, fenv, n, out),
                stack,
                r.1,
                r.0,
                n,
            ),
    decreases n, Term::Call(f, args), 0nat, args.len() + 1,
{
    let t = Term::Call(f, args);
    let whole = beval(t, env, fenv, n, out);
    let none = Seq::<SnakeVal>::empty();
    lemma_lookup_keys(fenv, f);
    lemma_index_of(keys(fenv), f);
    match lookup(fenv, f) {
        None => {
            assert(closure_at(menv, f) is None);
            assert forall|stack: Seq<FrameView>|
                follows(
                    Outcome::Running(#[trigger] descending(t, menv, stack, funs, out)),
                    whole,
                    stack,
                    funs,
                    1,
                    n,
                ) by {
                lemma_one_step(descending(t, menv, stack, funs, out), whole, stack, funs, n);
            }
            (1, funs)
        },
        Some(cl) => {
            let k0 = place(fenv, f);
            assert(fenv[k0].0 == f);
            assert(place(fenv, fenv[k0].0) == k0);
            let fun = closure_at(menv, f)->0;
            assert(clo_ok(cl, fun as int, funs));
            assert(args.take(0).len() == 0);
            lemma_args_from(args, 0, none, env, fenv, n, out, out);
            assert(whole == call_from(args, 0, none, cl, env, fenv, n, out));
            if args.len() == 0 {
                let (k1, f1) = lemma_simulate_enter(cl, fun, none, funs, n, out, t);
                assert forall|stack: Seq<FrameView>|
                    follows(
                        Outcome::Running(#[trigger] descending(t, menv, stack, funs, out)),
                        whole,
                        stack,
                        f1,
                        k1 + 1,
                        n,
                    ) by {
                    assert(follows(
                        call_spec(fun, none, stack, funs, out),
                        whole,
                        stack,
                        f1,
                        k1,
                        calls_left(n),
                    ));
                    lemma_step_from(
                        descending(t, menv, stack, funs, out),
                        whole,
                        stack,
                        f1,
                        k1,
                        calls_left(n),
                        n,
                    );
                }
                (k1 + 1, f1)
            } else {
                let (k1, f1) = lemma_simulate_args(
                    f,
                    args,
                    0,
                    none,
                    cl,
                    fun,
                    env,
                    fenv,
                    menv,
                    funs,
                    n,
                    out,
                );
                assert forall|stack: Seq<FrameView>|
                    follows(
                        Outcome::Running(#[trigger] descending(t, menv, stack, funs, out)),
                        whole,
                        stack,
                        f1,
                        k1 + 1,
                        n,
                    ) by {
                    let st = stack.push(FrameView::CallArgs(fun, none, menv, args.skip(1)));
                    assert(follows(
                        Outcome::Running(descending(args[0], menv, st, funs, out)),
                        whole,
                        stack,
                        f1,
                        k1,
                        n,
                    ));
                    lemma_step(descending(t, menv, stack, funs, out), whole, stack, f1, k1, n);
                }
                (k1 + 1, f1)
            }
        },
    }
}

/// The machine on the arguments of a call from the one at `i` on, and on
/// the body of the function.
pub proof fn lemma_simulate_args(
    f: Name,
    args: Seq<Term>,
    i: int,
    done: Seq<SnakeVal>,
    cl: Clo,
    fun: usize,
    env: EnvView,
    fenv: FunEnv,
    menv: EnvView,
    funs: Seq<ClosureView>,
    n: nat,
    out: Seq<char>,
) -> (r: (nat, Seq<ClosureView>))
    requires
        0 <= i < args.len(),
        unmangled(Term::Call(f, args)),
        env_rel(env, fenv, menv, funs),
        clo_ok(cl, fun as int, funs),
    ensures
        extends(r.1, funs),
        r.1.len() <= usize::MAX,
        forall|stack: Seq<FrameView>|
            follows(
                Outcome::Running(
                    #[trigger] descending(
                        args[i],
                        menv,
                        stack.push(FrameView::CallArgs(fun, done, menv, args.skip(i + 1))),
                        funs,
                        out,
                    ),
                ),
                call_from(args, i, done, cl, env, fenv, n, out),
                stack,
                r.1,
                r.0,
                n,
            ),
    decreases n, Term::Call(f, args), 0nat, args.len() - i,
{
    let whole = call_from(args, i, done, cl, env, fenv, n, out);
    let left = args.skip(i + 1);
    let frame = FrameView::CallArgs(fun, done, menv, left);
    match Term::Call(f, args) {
        Term::Call(_, xs) => {
            assert(xs == args);
        },
        _ => {},
    }
    let (k1, f1) = lemma_simulate(args[i], env, fenv, menv, funs, n, out);
    match beval(args[i], env, fenv, n, out) {
        Res::Fail(e, o1) => {
            assert forall|stack: Seq<FrameView>|
                follows(
                    Outcome::Running(
                        #[trigger] descending(args[i], menv, stack.push(frame), funs, out),
                    ),
                    whole,
                    stack,
                    f1,
                    k1,
                    n,
                ) by {
                let st = stack.push(frame);
                let first = Outcome::Running(descending(args[i], menv, st, funs, out));
                lemma_failed(first, e, o1, st, f1, k1, stack, f1, n);
            }
            (k1, f1)
        },
        Res::Done(v, o1) => {
            let done1 = done.push(v);
            lemma_env_more(env, fenv, menv, funs, f1);
            lemma_clo_more(cl, fun as int, funs, f1);
            if i + 1 == args.len() {
                assert(args_from(args, i + 1, done1, env, fenv, n, o1) == ResList::Done(
                    done1,
                    o1,
                ));
                assert(whole == call_result(cl, done1, n, o1));
                let (k2, f2) = lemma_simulate_enter(cl, fun, done1, f1, n, o1, Term::Call(f, args));
                lemma_extends(funs, f1, f2);
                assert forall|stack: Seq<FrameView>|
                    follows(
                        Outcome::Running(
                            #[trigger] descending(args[i], menv, stack.push(frame), funs, out),
                        ),
                        whole,
                        stack,
                        f2,
                        k1 + k2 + 1,
                        n,
                    ) by {
                    let st = stack.push(frame);
                    let first = Outcome::Running(descending(args[i], menv, st, funs, out));
                    assert(st.drop_last() =~= stack);
                    assert(follows(
                        call_spec(fun, done1, stack, f1, o1),
                        whole,
                        stack,
                        f2,
                        k2,
                        calls_left(n),
                    ));
                    lemma_step_from(
                        returning(v, st, f1, o1),
                        whole,
                        stack,
                        f2,
                        k2,
                        calls_left(n),
                        n,
                    );
                    lemma_after(first, v, o1, st, f1, k1, whole, stack, f2, k2 + 1, n);
                }
                (k1 + k2 + 1, f2)
            } else {
                let (k2, f2) = lemma_simulate_args(
                    f,
                    args,
                    i + 1,
                    done1,
                    cl,
                    fun,
                    env,
                    fenv,
                    menv,
                    f1,
                    n,
                    o1,
                );
                lemma_extends(funs, f1, f2);
                assert(left[0] == args[i + 1]);
                assert(left.skip(1) =~= args.skip(i + 2));
                assert forall|stack: Seq<FrameView>|
                    follows(
                        Outcome::Running(
                            #[trigger] descending(args[i], menv, stack.push(frame), funs, out),
                        ),
                        whole,
                        stack,
                        f2,
                        k1 + k2 + 1,
                        n,
                    ) by {
                    let st = stack.push(frame);
                    let first = Outcome::Running(descending(args[i], menv, st, funs, out));
                    let next = FrameView::CallArgs(fun, done1, menv, args.skip(i + 2));
                    assert(st.drop_last() =~= stack);
                    assert(follows(
                        Outcome::Running(descending(args[i + 1], menv, stack.push(next), f1, o1)),
                        whole,
                        stack,
                        f2,
                        k2,
                        n,
                    ));
                    lemma_step(returning(v, st, f1, o1), whole, stack, f2, k2, n);
                    lemma_after(first, v, o1, st, f1, k1, whole, stack, f2, k2 + 1, n);
                }
                (k1 + k2 + 1, f2)
            }
        },
    }
}

/// The calls that the body of a function may make, where the call of the
/// function may make `n`.
pub open spec fn calls_left(n: nat) -> nat {
    if n > 0 {
        (n - 1) as nat
    } else {
        0
    }
}

/// The machine on the body of a function that is called; `site` is the
/// call.
pub proof fn lemma_simulate_enter(
    cl: Clo,
    fun: usize,
    vs: Seq<SnakeVal>,
    funs: Seq<ClosureView>,
    n: nat,
    out: Seq<char>,
    site: Term,
) -> (r: (nat, Seq<ClosureView>))
    requires
        clo_ok(cl, fun as int, funs),
        funs.len() <= usize::MAX,
    ensures
        extends(r.1, funs),
        r.1.len() <= usize::MAX,
        forall|stack: Seq<FrameView>|
            follows(
                #[trigger] call_spec(fun, vs, stack, funs, out),
                call_result(cl, vs, n, out),
                stack,
                r.1,
                r.0,
                calls_left(n),
            ),
    decreases n, site, 0nat, 0nat,
{
    let whole = call_result(cl, vs, n, out);
    let d = clo_decl(cl);
    let m = calls_left(n);
    lemma_env_call(cl, fun as int, funs);
    if vs.len() != d.params.len() {
        assert forall|stack: Seq<FrameView>|
            follows(#[trigger] call_spec(fun, vs, stack, funs, out), whole, stack, funs, 0, m) by {
            lemma_there(whole, stack, funs, m);
        }
        (0, funs)
    } else if n == 0 {
        assert forall|stack: Seq<FrameView>|
            follows(#[trigger] call_spec(fun, vs, stack, funs, out), whole, stack, funs, 0, m) by {
            let o = call_spec(fun, vs, stack, funs, out);
            assert forall|fuel: nat| fuel <= m implies cut_short(#[trigger] go(o, fuel)) by {}
        }
        (0, funs)
    } else {
        let env1 = bind_params(cl.env, d.params, vs);
        let fenv1 = group_env(cl.env, cl.fenv, cl.group);
        let menv1 = bind_params(funs[fun as int].env, d.params, vs);
        lemma_env_params(cl.env, fenv1, funs[fun as int].env, funs, d.params, vs);
        let (k1, f1) = lemma_simulate(d.body, env1, fenv1, menv1, funs, m, out);
        assert forall|stack: Seq<FrameView>|
            follows(#[trigger] call_spec(fun, vs, stack, funs, out), whole, stack, f1, k1, m) by {
            assert(follows(
                Outcome::Running(descending(d.body, menv1, stack, funs, out)),
                whole,
                stack,
                f1,
                k1,
                m,
            ));
        }
        (k1, f1)
    }
}

/// What the machine shows of a result: it prints the value at the end.
pub open spec fn shown(r: Res) -> Outcome {
    match r {
        Res::Done(v, o) => Outcome::Finished(o + printed(v)),
        Res::Fail(f, o) => Outcome::Failed(f, o),
    }
}

/// The interpreter comes to what a program comes to: whatever the
/// machine ends with in `fuel` steps, unless it is cut short for want of
/// steps or because its store of closures is full, is what the
/// evaluation of the program with `fuel` nested calls allowed comes to;
/// the machine has printed the same, and then the value.
pub proof fn lemma_interpreter_agrees(t: Term, fuel: nat, out: Seq<char>)
    requires
        unmangled(t),
    ensures
        cut_short(interpret(t, out, fuel)) || interpret(t, out, fuel) == shown(
            beval(t, Seq::empty(), Seq::empty(), fuel, out),
        ),
{
    let env: EnvView = Seq::empty();
    let fenv: FunEnv = Seq::empty();
    let funs: Seq<ClosureView> = Seq::empty();
    let stack: Seq<FrameView> = Seq::empty();
    let whole = beval(t, env, fenv, fuel, out);
    assert(keys(env) =~= Seq::<Name>::empty());
    assert(keys(fenv) =~= Seq::<Name>::empty());
    assert(env_rel(env, fenv, env, funs));
    let (k1, f1) = lemma_simulate(t, env, fenv, env, funs, fuel, out);
    let c = descending(t, env, stack, funs, out);
    let o = Outcome::Running(c);
    assert(follows(o, whole, stack, f1, k1, fuel));
    assert(start(t, out) == c);
    assert(interpret(t, out, fuel) == go(o, fuel));
    if !out_of_fuel(whole) && !cut_short(interpret(t, out, fuel)) {
        let more = if fuel >= k1 + 1 {
            fuel
        } else {
            k1 + 1
        };
        lemma_run_more(c, fuel, more);
        assert(go(o, more) == go(o, fuel));
        assert(too_many(go(o, more)) || go(o, more) == resume(
            whole,
            stack,
            f1,
            (more - k1) as nat,
        ));
    }
}

/// The interpreter ends where the evaluation does: where the evaluation
/// of a program, with `n` nested calls allowed, comes to a value or to an
/// error, the machine with the number of steps that the lemma gives, or
/// with more, ends having printed the same and then the value, or with the
/// same error; unless its store of closures is full.
pub proof fn lemma_interpreter_ends(t: Term, n: nat, out: Seq<char>) -> (k: nat)
    requires
        unmangled(t),
        !out_of_fuel(beval(t, Seq::empty(), Seq::empty(), n, out)),
    ensures
        forall|fuel: nat|
            fuel >= k ==> too_many(#[trigger] interpret(t, out, fuel)) || interpret(t, out, fuel)
                == shown(beval(t, Seq::empty(), Seq::empty(), n, out)),
{
    let env: EnvView = Seq::empty();
    let fenv: FunEnv = Seq::empty();
    let funs: Seq<ClosureView> = Seq::empty();
    let stack: Seq<FrameView> = Seq::empty();
    let whole = beval(t, env, fenv, n, out);
    assert(keys(env) =~= Seq::<Name>::empty());
    assert(keys(fenv) =~= Seq::<Name>::empty());
    assert(env_rel(env, fenv, env, funs));
    let (k1, f1) = lemma_simulate(t, env, fenv, env, funs, n, out);
    let c = descending(t, env, stack, funs, out);
    let o = Outcome::Running(c);
    assert(follows(o, whole, stack, f1, k1, n));
    assert(start(t, out) == c);
    assert forall|fuel: nat| fuel >= k1 + 1 implies too_many(#[trigger] interpret(t, out, fuel))
        || interpret(t, out, fuel) == shown(whole) by {
        assert(interpret(t, out, fuel) == go(o, fuel));
        assert(too_many(go(o, fuel)) || go(o, fuel) == resume(
            whole,
            stack,
            f1,
            (fuel - k1) as nat,
        ));
    }
    k1 + 1
}

} // verus!
