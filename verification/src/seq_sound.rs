//! Sequentializing keeps the meaning: the sequential form of a lifted
//! program prints the same and comes to the same value or the same error.

use crate::interp::{bind_params, EnvView, SnakeVal};
use crate::lambda_lift::bound_names;
use crate::names::{decimal, has_name, index_of, keys, lemma_decimal_injective, lemma_index_of};
use crate::names::{lookup, numbered};
use crate::scopes::{lemma_has_name_push, ready};
use crate::semantics::{arities_of, call_fault, choice, eval, eval_args, eval_bindings, find_fun};
use crate::semantics::{imm_value, imm_values, Res, ResEnv, ResList, seq_arities, seq_names, seval};
use crate::semantics::seval_bindings;
use crate::sequentializer::{arg_bindings, args_temps, bindings_temps, cond_name, decls_temps};
use crate::sequentializer::{imm_of, let_bindings, nest, operand, operands, seq_funs, seq_prog_term};
use crate::sequentializer::{seq_term, temp_name, temps};
use crate::syntax::{FunTerm, ImmTerm, Name, SeqFunTerm, SeqTerm, Term};
use crate::uniquify::decl_names;
use vstd::prelude::*;

verus! {

/// Whether a name is one that sequentializing makes: it begins with `#`.
pub open spec fn is_temp(x: Name) -> bool {
    x.len() > 0 && x[0] == '#'
}

/// Whether no name of a list is one that sequentializing makes.
pub open spec fn no_temps(sc: Seq<Name>) -> bool {
    forall|k: int| 0 <= k < sc.len() ==> !is_temp(#[trigger] sc[k])
}

/// Whether no name that an expression binds is one that sequentializing
/// makes.
pub open spec fn plain(t: Term) -> bool
    decreases t,
{
    match t {
        Term::Prim(_, args) => forall|i: int| 0 <= i < args.len() ==> plain(#[trigger] args[i]),
        Term::Let(bs, body) => plain(*body) && forall|i: int|
            0 <= i < bs.len() ==> !is_temp((#[trigger] bs[i]).0) && plain(bs[i].1),
        Term::If(c, a, b) => plain(*c) && plain(*a) && plain(*b),
        Term::ExternalCall(_, args, _) => forall|i: int|
            0 <= i < args.len() ==> plain(#[trigger] args[i]),
        Term::Call(_, args) => forall|i: int| 0 <= i < args.len() ==> plain(#[trigger] args[i]),
        Term::InternalTailCall(_, args) => forall|i: int|
            0 <= i < args.len() ==> plain(#[trigger] args[i]),
        Term::FunDefs(ds, body) => plain(*body) && forall|i: int|
            0 <= i < ds.len() ==> plain((#[trigger] ds[i]).body) && no_temps(ds[i].params),
        _ => true,
    }
}

/// What is asked of the top-level functions: each is ready under its
/// parameters, and binds no name that sequentializing makes.
pub open spec fn funs_ok(gs: Seq<FunTerm>) -> bool {
    forall|k: int|
        0 <= k < gs.len() ==> ready((#[trigger] gs[k]).body, gs[k].params) && plain(gs[k].body)
            && no_temps(gs[k].params)
}

/// Whether the second environment binds every name in scope, and to what
/// the first binds it.
pub open spec fn env_agree(env: EnvView, env2: EnvView, sc: Seq<Name>) -> bool {
    forall|x: Name|
        has_name(sc, x) ==> lookup(env, x) is Some && #[trigger] lookup(env2, x) == lookup(env, x)
}

/// Whether the second environment binds what the first binds, but for the
/// temporaries numbered above `lo` and not above `hi`.
pub open spec fn added(env2: EnvView, env3: EnvView, lo: nat, hi: nat) -> bool {
    forall|y: Name|
        (forall|k: nat| lo < k <= hi ==> y != #[trigger] temp_name(k)) ==> #[trigger] lookup(
            env3,
            y,
        ) == lookup(env2, y)
}

/// The names that sequentializing makes begin with `#`, and differ where
/// their numbers differ.
pub proof fn lemma_temp_names(n: nat, m: nat)
    ensures
        is_temp(temp_name(n)),
        is_temp(cond_name(n)),
        temp_name(n) == temp_name(m) ==> n == m,
        temp_name(n) != cond_name(m),
{
    reveal_strlit("#var_");
    reveal_strlit("#if_");
    let a = temp_name(n);
    let b = temp_name(m);
    let c = cond_name(m);
    assert(a[0] == '#');
    assert(cond_name(n)[0] == '#');
    assert(a[1] == 'v');
    assert(c[1] == 'i');
    if a == b {
        assert(a.skip(5) =~= decimal(n));
        assert(b.skip(5) =~= decimal(m));
        lemma_decimal_injective(n, m);
    }
}

/// What an environment with one more binding binds.
pub proof fn lemma_lookup_push(env: EnvView, x: Name, v: SnakeVal, y: Name)
    ensures
        lookup(env.push((x, v)), y) == (if y == x {
            Some(v)
        } else {
            lookup(env, y)
        }),
{
    assert(keys(env.push((x, v))) =~= keys(env).push(x));
    assert(keys(env.push((x, v))).drop_last() =~= keys(env));
    lemma_index_of(keys(env), y);
}

/// Bindings nested around an expression are evaluated from the first to
/// the last, and then the expression.
pub proof fn lemma_nest_eval(
    gs: Seq<SeqFunTerm>,
    bs: Seq<(Name, SeqTerm)>,
    inner: SeqTerm,
    env: EnvView,
    fuel: nat,
    out: Seq<char>,
)
    ensures
        seval(gs, nest(bs, inner), env, fuel, out) == (match seval_bindings(gs, bs, env, fuel, out) {
            ResEnv::Fail(f, o) => Res::Fail(f, o),
            ResEnv::Done(env1, o) => seval(gs, inner, env1, fuel, o),
        }),
    decreases bs.len(),
{
    if bs.len() > 0 {
        let wrapped = SeqTerm::Let(bs.last().0, Box::new(bs.last().1), Box::new(inner));
        lemma_nest_eval(gs, bs.drop_last(), wrapped, env, fuel, out);
    }
}

/// Agreement is kept where both environments get the same binding.
pub proof fn lemma_agree_push(env: EnvView, env2: EnvView, sc: Seq<Name>, x: Name, v: SnakeVal)
    requires
        env_agree(env, env2, sc),
    ensures
        env_agree(env.push((x, v)), env2.push((x, v)), sc.push(x)),
{
    assert forall|y: Name| has_name(sc.push(x), y) implies lookup(env.push((x, v)), y) is Some
        && #[trigger] lookup(env2.push((x, v)), y) == lookup(env.push((x, v)), y) by {
        lemma_lookup_push(env, x, v, y);
        lemma_lookup_push(env2, x, v, y);
        lemma_has_name_push(sc, x, y);
        if y != x {
            assert(lookup(env2, y) == lookup(env, y));
        }
    }
}

/// Agreement is kept where the second environment gets a binding for a
/// name that is not in scope.
pub proof fn lemma_agree_extra(env: EnvView, env2: EnvView, sc: Seq<Name>, x: Name, v: SnakeVal)
    requires
        env_agree(env, env2, sc),
        !has_name(sc, x),
    ensures
        env_agree(env, env2.push((x, v)), sc),
{
    assert forall|y: Name| has_name(sc, y) implies lookup(env, y) is Some && #[trigger] lookup(
        env2.push((x, v)),
        y,
    ) == lookup(env, y) by {
        lemma_lookup_push(env2, x, v, y);
        assert(lookup(env2, y) == lookup(env, y));
    }
}

/// A name that sequentializing makes is not in a scope without such names.
pub proof fn lemma_temp_not_in(sc: Seq<Name>, x: Name)
    requires
        no_temps(sc),
        is_temp(x),
    ensures
        !has_name(sc, x),
{
    lemma_index_of(sc, x);
    if has_name(sc, x) {
        assert(!is_temp(sc[index_of(sc, x)]));
    }
}

/// A scope without names that sequentializing makes stays so with plain
/// names.
pub proof fn lemma_no_temps_concat(sc: Seq<Name>, more: Seq<Name>)
    requires
        no_temps(sc),
        no_temps(more),
    ensures
        no_temps(sc + more),
{
    assert forall|k: int| 0 <= k < (sc + more).len() implies !is_temp(#[trigger] (sc + more)[k]) by {
        if k < sc.len() {
            assert((sc + more)[k] == sc[k]);
        } else {
            assert((sc + more)[k] == more[k - sc.len()]);
        }
    }
}

/// The parameters of a call are bound to its arguments.
pub proof fn lemma_bind_params(params: Seq<Name>, vs: Seq<SnakeVal>, x: Name)
    requires
        params.len() == vs.len(),
        has_name(params, x),
    ensures
        lookup(bind_params(Seq::empty(), params, vs), x) is Some,
{
    let env = bind_params(Seq::empty(), params, vs);
    assert(keys(env) =~= params);
    lemma_index_of(params, x);
}

/// The sequential forms of the functions carry their names and their
/// parameters, and the sequential forms of their bodies.
pub proof fn lemma_seq_funs_index(gs: Seq<FunTerm>, c: nat)
    ensures
        seq_funs(gs, c).len() == gs.len(),
        seq_names(seq_funs(gs, c)) == decl_names(gs),
        seq_arities(seq_funs(gs, c)) == arities_of(gs),
        forall|k: int|
            0 <= k < gs.len() ==> #[trigger] seq_funs(gs, c)[k] == (SeqFunTerm {
                name: gs[k].name,
                params: gs[k].params,
                body: seq_term(gs[k].body, c + decls_temps(gs.take(k)), true),
            }),
    decreases gs.len(),
{
    if gs.len() == 0 {
        assert(seq_names(seq_funs(gs, c)) =~= decl_names(gs));
        assert(seq_arities(seq_funs(gs, c)) =~= arities_of(gs));
    } else {
        let dl = gs.drop_last();
        lemma_seq_funs_index(dl, c);
        assert forall|k: int| 0 <= k < gs.len() implies #[trigger] seq_funs(gs, c)[k] == (
        SeqFunTerm {
            name: gs[k].name,
            params: gs[k].params,
            body: seq_term(gs[k].body, c + decls_temps(gs.take(k)), true),
        }) by {
            if k < gs.len() - 1 {
                assert(dl.take(k) =~= gs.take(k));
            } else {
                assert(gs.take(k) =~= dl);
            }
        }
        assert(seq_names(seq_funs(gs, c)) =~= decl_names(gs));
        assert(seq_arities(seq_funs(gs, c)) =~= arities_of(gs));
    }
}

/// Whether each operand that is a name is in scope or is a temporary
/// numbered above `lo` and not above `hi`.
pub open spec fn operands_known(ops: Seq<ImmTerm>, sc: Seq<Name>, lo: nat, hi: nat) -> bool {
    forall|j: int|
        0 <= j < ops.len() ==> (#[trigger] ops[j] matches ImmTerm::Var(y) ==> has_name(sc, y)
            || exists|k: nat| lo < k <= hi && y == #[trigger] temp_name(k))
}

/// The operands of arguments that are ready are in scope, or temporaries
/// numbered after the counter.
pub proof fn lemma_operands_known(args: Seq<Term>, sc: Seq<Name>, c: nat)
    requires
        forall|i: int| 0 <= i < args.len() ==> ready(#[trigger] args[i], sc),
    ensures
        operands(args, c).len() == args.len(),
        operands_known(operands(args, c), sc, c, c + args_temps(args)),
    decreases args.len(),
{
    if args.len() > 0 {
        let dl = args.drop_last();
        let last = args.last();
        let c1 = c + args_temps(dl);
        assert forall|i: int| 0 <= i < dl.len() implies ready(#[trigger] dl[i], sc) by {
            assert(dl[i] == args[i]);
        }
        lemma_operands_known(dl, sc, c);
        assert(ready(args[args.len() - 1], sc));
        let ops = operands(args, c);
        let opsd = operands(dl, c);
        assert forall|j: int| 0 <= j < ops.len() implies (#[trigger] ops[j] matches ImmTerm::Var(
            y,
        ) ==> has_name(sc, y) || exists|k: nat|
            c < k <= c + args_temps(args) && y == #[trigger] temp_name(k)) by {
            if let ImmTerm::Var(y) = ops[j] {
                if j < opsd.len() {
                    assert(ops[j] == opsd[j]);
                    if !has_name(sc, y) {
                        let k = choose|k: nat| c < k <= c1 && y == #[trigger] temp_name(k);
                        assert(c < k <= c + args_temps(args) && y == temp_name(k));
                    }
                } else {
                    if imm_of(last) is None {
                        let k = (c1 + temps(last) + 1) as nat;
                        assert(c < k <= c + args_temps(args) && y == temp_name(k));
                    }
                }
            }
        }
    }
}

/// The sequential form of an expression means what the expression means:
/// under environments that agree on the names in scope, with the same
/// calls allowed and the same printed before, both print the same and come
/// to the same value or the same error.
pub proof fn lemma_seq_sound(
    gs: Seq<FunTerm>,
    c0: nat,
    t: Term,
    sc: Seq<Name>,
    env: EnvView,
    env2: EnvView,
    c: nat,
    tail: bool,
    fuel: nat,
    out: Seq<char>,
)
    requires
        funs_ok(gs),
        ready(t, sc),
        plain(t),
        no_temps(sc),
        env_agree(env, env2, sc),
    ensures
        seval(seq_funs(gs, c0), seq_term(t, c, tail), env2, fuel, out) == eval(
            gs,
            t,
            env,
            fuel,
            out,
        ),
    decreases fuel, t,
{
    let sgs = seq_funs(gs, c0);
    match t {
        Term::Num(_) => {},
        Term::Bool(_) => {},
        Term::Var(x) => {
            assert(lookup(env2, x) == lookup(env, x));
        },
        Term::Prim(p, args) => {
            let bs = arg_bindings(args, c);
            let ops = operands(args, c);
            lemma_args_sound(gs, c0, args, sc, env, env2, c, fuel, out);
            lemma_nest_eval(sgs, bs, SeqTerm::Prim(p, ops), env2, fuel, out);
            if let ResList::Done(vs, o) = eval_args(gs, args, env, fuel, out) {
                let env3 = seval_bindings(sgs, bs, env2, fuel, out)->Done_0;
                lemma_values(ops, env3, vs);
            }
        },
        Term::Let(bs, body) => {
            lemma_let_sound(gs, c0, bs, sc, env, env2, c, fuel, out);
            lemma_nest_eval(
                sgs,
                let_bindings(bs, c),
                seq_term(*body, c + bindings_temps(bs), tail),
                env2,
                fuel,
                out,
            );
            if let ResEnv::Done(env1, o) = eval_bindings(gs, bs, env, fuel, out) {
                let env3 = seval_bindings(sgs, let_bindings(bs, c), env2, fuel, out)->Done_0;
                assert(no_temps(bound_names(bs))) by {
                    assert forall|k: int| 0 <= k < bound_names(bs).len() implies !is_temp(
                        #[trigger] bound_names(bs)[k],
                    ) by {
                        assert(!is_temp(bs[k].0));
                    }
                }
                lemma_no_temps_concat(sc, bound_names(bs));
                lemma_seq_sound(
                    gs,
                    c0,
                    *body,
                    sc + bound_names(bs),
                    env1,
                    env3,
                    c + bindings_temps(bs),
                    tail,
                    fuel,
                    o,
                );
            }
        },
        Term::If(cond, a, b) => {
            let n = c + 1;
            let x = cond_name(n);
            lemma_seq_sound(gs, c0, *cond, sc, env, env2, n, false, fuel, out);
            if let Res::Done(v, o) = eval(gs, *cond, env, fuel, out) {
                let env3 = env2.push((x, v));
                lemma_temp_names(n, n);
                lemma_temp_not_in(sc, x);
                lemma_agree_extra(env, env2, sc, x, v);
                lemma_lookup_push(env2, x, v, x);
                lemma_seq_sound(gs, c0, *a, sc, env, env3, n + temps(*cond), tail, fuel, o);
                lemma_seq_sound(
                    gs,
                    c0,
                    *b,
                    sc,
                    env,
                    env3,
                    n + temps(*cond) + temps(*a),
                    tail,
                    fuel,
                    o,
                );
                let branch = SeqTerm::If(
                    ImmTerm::Var(x),
                    Box::new(seq_term(*a, n + temps(*cond), tail)),
                    Box::new(seq_term(*b, n + temps(*cond) + temps(*a), tail)),
                );
                assert(seval(sgs, branch, env3, fuel, o) == (match choice(v) {
                    Err(f) => Res::Fail(f, o),
                    Ok(yes) => if yes {
                        seval(sgs, seq_term(*a, n + temps(*cond), tail), env3, fuel, o)
                    } else {
                        seval(sgs, seq_term(*b, n + temps(*cond) + temps(*a), tail), env3, fuel, o)
                    },
                }));
            }
        },
        Term::ExternalCall(f, args, _) => {
            let bs = arg_bindings(args, c);
            let ops = operands(args, c);
            lemma_args_sound(gs, c0, args, sc, env, env2, c, fuel, out);
            lemma_nest_eval(sgs, bs, SeqTerm::ExternalCall(f, ops, tail), env2, fuel, out);
            lemma_seq_funs_index(gs, c0);
            if let ResList::Done(vs, o) = eval_args(gs, args, env, fuel, out) {
                let env3 = seval_bindings(sgs, bs, env2, fuel, out)->Done_0;
                lemma_values(ops, env3, vs);
                if call_fault(decl_names(gs), arities_of(gs), f, vs.len(), fuel) is None {
                    let k = find_fun(decl_names(gs), f);
                    lemma_index_of(decl_names(gs), f);
                    let envc = bind_params(Seq::empty(), gs[k].params, vs);
                    assert forall|y: Name| has_name(gs[k].params, y) implies lookup(envc, y) is Some
                        && #[trigger] lookup(envc, y) == lookup(envc, y) by {
                        lemma_bind_params(gs[k].params, vs, y);
                    }
                    lemma_seq_sound(
                        gs,
                        c0,
                        gs[k].body,
                        gs[k].params,
                        envc,
                        envc,
                        c0 + decls_temps(gs.take(k)),
                        true,
                        (fuel - 1) as nat,
                        o,
                    );
                }
            }
        },
        _ => {},
    }
}

/// The values of operands that are all bound.
pub proof fn lemma_values(ops: Seq<ImmTerm>, env: EnvView, vs: Seq<SnakeVal>)
    requires
        ops.len() == vs.len(),
        forall|j: int| 0 <= j < ops.len() ==> imm_value(#[trigger] ops[j], env) == Some(vs[j]),
    ensures
        imm_values(ops, env) == Some(vs),
{
    assert(Seq::new(ops.len(), |k: int| imm_value(ops[k], env)->0) =~= vs);
}

/// The bindings of the arguments of a primitive or a call mean what the
/// arguments mean: they fail where the arguments fail, and else leave an
/// environment in which the operands hold the values of the arguments.
pub proof fn lemma_args_sound(
    gs: Seq<FunTerm>,
    c0: nat,
    args: Seq<Term>,
    sc: Seq<Name>,
    env: EnvView,
    env2: EnvView,
    c: nat,
    fuel: nat,
    out: Seq<char>,
)
    requires
        funs_ok(gs),
        forall|i: int| 0 <= i < args.len() ==> ready(#[trigger] args[i], sc) && plain(args[i]),
        no_temps(sc),
        env_agree(env, env2, sc),
    ensures
        operands(args, c).len() == args.len(),
        match eval_args(gs, args, env, fuel, out) {
            ResList::Fail(f, o) => seval_bindings(
                seq_funs(gs, c0),
                arg_bindings(args, c),
                env2,
                fuel,
                out,
            ) == ResEnv::Fail(f, o),
            ResList::Done(vs, o) => seval_bindings(
                seq_funs(gs, c0),
                arg_bindings(args, c),
                env2,
                fuel,
                out,
            ) matches ResEnv::Done(env3, o3) && o3 == o && vs.len() == args.len() && (forall|
                j: int,
            |
                0 <= j < args.len() ==> imm_value(#[trigger] operands(args, c)[j], env3) == Some(
                    vs[j],
                )) && env_agree(env, env3, sc) && added(env2, env3, c, c + args_temps(args)),
        },
    decreases fuel, args,
{
    let sgs = seq_funs(gs, c0);
    let bs = arg_bindings(args, c);
    let ops = operands(args, c);
    if args.len() == 0 {
    } else {
        let dl = args.drop_last();
        let last = args.last();
        let c1 = c + args_temps(dl);
        let bd = arg_bindings(dl, c);
        let opsd = operands(dl, c);
        assert forall|i: int| 0 <= i < dl.len() implies ready(#[trigger] dl[i], sc) && plain(
            dl[i],
        ) by {
            assert(dl[i] == args[i]);
        }
        assert(ready(args[args.len() - 1], sc) && plain(args[args.len() - 1]));
        lemma_args_sound(gs, c0, dl, sc, env, env2, c, fuel, out);
        lemma_operands_known(dl, sc, c);
        if imm_of(last) is None {
            let k_new = (c1 + temps(last) + 1) as nat;
            assert(bs == bd.push((temp_name(k_new), seq_term(last, c1, false))));
            assert(bs.drop_last() =~= bd);
            assert(bs.last() == (temp_name(k_new), seq_term(last, c1, false)));
        } else {
            assert(bs == bd);
        }
        if let ResList::Done(vsd, o1) = eval_args(gs, dl, env, fuel, out) {
            let env3d = seval_bindings(sgs, bd, env2, fuel, out)->Done_0;
            if imm_of(last) is Some {
                assert(bs == bd);
                let v = eval(gs, last, env, fuel, o1);
                if let Term::Var(x) = last {
                    assert(has_name(sc, x));
                    assert(lookup(env3d, x) == lookup(env, x));
                }
                assert(v is Done);
                let vs = eval_args(gs, args, env, fuel, out)->Done_0;
                assert(vs == vsd.push(v->Done_0));
                assert forall|j: int| 0 <= j < args.len() implies imm_value(
                    #[trigger] ops[j],
                    env3d,
                ) == Some(vs[j]) by {
                    if j < dl.len() {
                        assert(ops[j] == opsd[j]);
                        assert(imm_value(opsd[j], env3d) == Some(vsd[j]));
                    } else {
                        assert(ops[j] == imm_of(last)->0);
                    }
                }
                assert(added(env2, env3d, c, c + args_temps(args)));
            } else {
                let k_new = (c1 + temps(last) + 1) as nat;
                let x = temp_name(k_new);
                lemma_seq_sound(gs, c0, last, sc, env, env3d, c1, false, fuel, o1);
                if let Res::Done(v, o2) = eval(gs, last, env, fuel, o1) {
                    let env3 = env3d.push((x, v));
                    let vs = vsd.push(v);
                    assert(bs == bd.push((x, seq_term(last, c1, false))));
                    assert(bs.drop_last() =~= bd);
                    lemma_temp_names(k_new, k_new);
                    lemma_temp_not_in(sc, x);
                    lemma_agree_extra(env, env3d, sc, x, v);
                    assert forall|j: int| 0 <= j < args.len() implies imm_value(
                        #[trigger] ops[j],
                        env3,
                    ) == Some(vs[j]) by {
                        if j < dl.len() {
                            assert(ops[j] == opsd[j]);
                            assert(imm_value(opsd[j], env3d) == Some(vsd[j]));
                            if let ImmTerm::Var(y) = opsd[j] {
                                lemma_lookup_push(env3d, x, v, y);
                                if !has_name(sc, y) {
                                    let k = choose|k: nat|
                                        c < k <= c1 && y == #[trigger] temp_name(k);
                                    lemma_temp_names(k, k_new);
                                }
                            }
                        } else {
                            lemma_lookup_push(env3d, x, v, x);
                        }
                    }
                    assert forall|y: Name|
                        (forall|k: nat|
                            c < k <= c + args_temps(args) ==> y != #[trigger] temp_name(
                                k,
                            )) implies #[trigger] lookup(env3, y) == lookup(env2, y) by {
                        assert(y != temp_name(k_new));
                        lemma_lookup_push(env3d, x, v, y);
                        assert forall|k: nat| c < k <= c1 implies y != #[trigger] temp_name(k) by {
                            assert(c < k <= c + args_temps(args));
                        }
                        assert(lookup(env3d, y) == lookup(env2, y));
                    }
                }
            }
        }
    }
}

/// The bindings of a `let` in sequential form mean what the bindings
/// mean.
pub proof fn lemma_let_sound(
    gs: Seq<FunTerm>,
    c0: nat,
    bs: Seq<(Name, Term)>,
    sc: Seq<Name>,
    env: EnvView,
    env2: EnvView,
    c: nat,
    fuel: nat,
    out: Seq<char>,
)
    requires
        funs_ok(gs),
        forall|i: int|
            0 <= i < bs.len() ==> ready((#[trigger] bs[i]).1, sc + bound_names(bs).take(i))
                && plain(bs[i].1) && !is_temp(bs[i].0),
        no_temps(sc),
        env_agree(env, env2, sc),
    ensures
        match eval_bindings(gs, bs, env, fuel, out) {
            ResEnv::Fail(f, o) => seval_bindings(
                seq_funs(gs, c0),
                let_bindings(bs, c),
                env2,
                fuel,
                out,
            ) == ResEnv::Fail(f, o),
            ResEnv::Done(env1, o) => seval_bindings(
                seq_funs(gs, c0),
                let_bindings(bs, c),
                env2,
                fuel,
                out,
            ) matches ResEnv::Done(env3, o3) && o3 == o && env_agree(
                env1,
                env3,
                sc + bound_names(bs),
            ),
        },
    decreases fuel, bs,
{
    let sgs = seq_funs(gs, c0);
    if bs.len() == 0 {
        assert(sc + bound_names(bs) =~= sc);
    } else {
        let dl = bs.drop_last();
        let n = bs.len() - 1;
        let last = bs.last();
        assert forall|i: int| 0 <= i < dl.len() implies ready(
            (#[trigger] dl[i]).1,
            sc + bound_names(dl).take(i),
        ) && plain(dl[i].1) && !is_temp(dl[i].0) by {
            assert(dl[i] == bs[i]);
            assert(bound_names(dl).take(i) =~= bound_names(bs).take(i));
        }
        lemma_let_sound(gs, c0, dl, sc, env, env2, c, fuel, out);
        assert(ready(bs[n].1, sc + bound_names(bs).take(n)) && plain(bs[n].1) && !is_temp(bs[n].0));
        assert(bound_names(bs).take(n) =~= bound_names(dl));
        assert(let_bindings(bs, c).drop_last() =~= let_bindings(dl, c));
        if let ResEnv::Done(env1, o1) = eval_bindings(gs, dl, env, fuel, out) {
            let env3 = seval_bindings(sgs, let_bindings(dl, c), env2, fuel, out)->Done_0;
            assert(no_temps(bound_names(dl))) by {
                assert forall|k: int| 0 <= k < bound_names(dl).len() implies !is_temp(
                    #[trigger] bound_names(dl)[k],
                ) by {
                    assert(!is_temp(bs[k].0));
                }
            }
            lemma_no_temps_concat(sc, bound_names(dl));
            lemma_seq_sound(
                gs,
                c0,
                last.1,
                sc + bound_names(dl),
                env1,
                env3,
                c + bindings_temps(dl),
                false,
                fuel,
                o1,
            );
            if let Res::Done(v, o2) = eval(gs, last.1, env1, fuel, o1) {
                lemma_agree_push(env1, env3, sc + bound_names(dl), last.0, v);
                assert((sc + bound_names(dl)).push(last.0) =~= sc + bound_names(bs));
            }
        }
    }
}

/// Sequentializer soundness: the sequential form of a lifted program
/// means what the program means. With the same number of calls allowed,
/// both print the same and come to the same value or to the same error.
pub proof fn lemma_sequentializer_sound(gs: Seq<FunTerm>, main: Term, fuel: nat, out: Seq<char>)
    requires
        funs_ok(gs),
        ready(main, Seq::empty()),
        plain(main),
    ensures
        seval(
            seq_prog_term(gs, main).funs,
            seq_prog_term(gs, main).main,
            Seq::empty(),
            fuel,
            out,
        ) == eval(gs, main, Seq::empty(), fuel, out),
{
    let none: Seq<Name> = Seq::empty();
    let env: EnvView = Seq::empty();
    assert forall|x: Name| has_name(none, x) implies lookup(env, x) is Some && #[trigger] lookup(
        env,
        x,
    ) == lookup(env, x) by {}
    lemma_seq_sound(gs, 0, main, none, env, env, decls_temps(gs), true, fuel, out);
}

} // verus!
