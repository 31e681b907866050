//! Lifting keeps the meaning: what lifting leaves of a renamed program,
//! with the functions that it lifts, prints the same and comes to the same
//! value or the same error as the program with its closures.

use crate::interp::{bind_params, EnvView, SnakeVal};
use crate::lambda_lift::{bound_names, captured_decls, extras, FunTable, lambda_lift_term, lift};
use crate::lambda_lift::{lift_args, lift_bindings, lift_decls, vars, with_group};
use crate::lift_scopes::lemma_group_liftable;
use crate::names::{has_name, index_of, keys, lemma_index_of, lemma_keys_push, lookup};
use crate::plain_names::lemma_lift_args_len;
use crate::scopes::{lemma_has_name_concat, lemma_has_name_push, lemma_index_of_concat};
use crate::scopes::{lemma_uniq_liftable, liftable, scoped, surface};
use crate::semantics::{arities_of, beval, beval_args, beval_bindings, Clo, clo_decl, eval};
use crate::semantics::{eval_args, eval_bindings, find_fun, FunEnv, group_env, Res, ResEnv, ResList};
use crate::seq_sound::lemma_lookup_push;
use crate::syntax::{FunTerm, Name, Term};
use crate::tidy::{distinct_names, fresh, group_arities, lemma_lifted_distinct, lemma_uniq_tidy};
use crate::tidy::tidy;
use crate::uniquify::{decl_names, uniquify_term};
use vstd::prelude::*;

verus! {

/// Whether the second environment binds whatever the first binds, and to
/// the same.
pub open spec fn ext(small: EnvView, big: EnvView) -> bool {
    forall|y: Name| lookup(small, y) is Some ==> #[trigger] lookup(big, y) == lookup(small, y)
}

/// The functions in scope with the numbers of their parameters.
pub open spec fn arities(fenv: FunEnv) -> Seq<(Name, nat)> {
    Seq::new(fenv.len(), |k: int| (fenv[k].0, clo_decl(fenv[k].1).params.len()))
}

/// Whether every function of `gs` is among `all`.
pub open spec fn contains_all(all: Seq<FunTerm>, gs: Seq<FunTerm>) -> bool {
    forall|k: int| 0 <= k < gs.len() ==> all.contains(#[trigger] gs[k])
}

/// What holds of the function at `k` among the functions in scope: how its
/// group lies among them, what lifting made of it, and that it sees the
/// variables that the functions before it see.
pub open spec fn entry_ok(
    k: int,
    fenv: FunEnv,
    table: FunTable,
    env: EnvView,
    all: Seq<FunTerm>,
) -> bool {
    let f = fenv[k].0;
    let c = fenv[k].1;
    let cap = table[k].1;
    let d = clo_decl(c);
    let b = k - c.index;
    let n = c.group.len();
    let inner = table.take(b + n);
    let found = find_fun(decl_names(all), f);
    &&& table[k].0 == f
    &&& c.index < n
    &&& d.name == f
    &&& 0 <= b
    &&& b + n <= fenv.len()
    &&& c.fenv == fenv.take(b)
    &&& forall|j: int|
        0 <= j < n ==> #[trigger] fenv[b + j] == (
            c.group[j].name,
            Clo { env: c.env, fenv: c.fenv, group: c.group, index: j as nat },
        ) && table[b + j] == (c.group[j].name, cap)
    &&& ext(c.env, env)
    &&& forall|y: Name| has_name(cap, y) ==> #[trigger] lookup(c.env, y) is Some
    &&& forall|k2: int| 0 <= k2 < b ==> ext((#[trigger] fenv[k2]).1.env, c.env)
    &&& liftable(d.body, d.params + cap, inner)
    &&& fresh(d.params, keys(c.env))
    &&& tidy(d.body, keys(c.env) + d.params, arities(fenv).take(b + n))
    &&& 0 <= found < all.len()
    &&& all[found].params == d.params + cap
    &&& all[found].body == lift(d.body, d.params + cap, inner).0
    &&& contains_all(all, lift(d.body, d.params + cap, inner).1)
}

/// Whether the closures in scope and the table of lifting go together.
pub open spec fn world_ok(fenv: FunEnv, table: FunTable, env: EnvView, all: Seq<FunTerm>) -> bool {
    &&& fenv.len() == table.len()
    &&& forall|k: int| 0 <= k < fenv.len() ==> entry_ok(k, fenv, table, env, all)
}

/// Whether the lifted environment binds every variable in scope, and to
/// what the environment of the closures binds it.
pub open spec fn vars_agree(env: EnvView, env2: EnvView, sc: Seq<Name>) -> bool {
    forall|x: Name|
        has_name(sc, x) ==> lookup(env, x) is Some && #[trigger] lookup(env2, x) == lookup(env, x)
}

/// A name that an environment binds is among its names.
pub proof fn lemma_lookup_keys<T>(t: Seq<(Name, T)>, x: Name)
    ensures
        lookup(t, x) is Some <==> has_name(keys(t), x),
        lookup(t, x) is Some ==> lookup(t, x) == Some(t[index_of(keys(t), x)].1) && 0
            <= index_of(keys(t), x) < t.len(),
{
    lemma_index_of(keys(t), x);
}

/// An environment with a fresh binding binds what it bound.
pub proof fn lemma_ext_push(small: EnvView, big: EnvView, x: Name, v: SnakeVal)
    requires
        ext(small, big),
        lookup(small, x) is None,
    ensures
        ext(small, big.push((x, v))),
{
    assert forall|y: Name| lookup(small, y) is Some implies #[trigger] lookup(big.push((x, v)), y)
        == lookup(small, y) by {
        lemma_lookup_push(big, x, v, y);
        assert(lookup(big, y) == lookup(small, y));
    }
}

/// What binds all of an environment that binds all of another binds all
/// of the other.
pub proof fn lemma_ext_trans(a: EnvView, b: EnvView, c: EnvView)
    requires
        ext(a, b),
        ext(b, c),
    ensures
        ext(a, c),
{
    assert forall|y: Name| lookup(a, y) is Some implies #[trigger] lookup(c, y) == lookup(a, y) by {
        assert(lookup(b, y) == lookup(a, y));
        assert(lookup(c, y) == lookup(b, y));
    }
}

/// What an environment binds that is made of one and more bindings.
pub proof fn lemma_lookup_concat<T>(a: Seq<(Name, T)>, b: Seq<(Name, T)>, x: Name)
    ensures
        lookup(a + b, x) == (if lookup(b, x) is Some {
            lookup(b, x)
        } else {
            lookup(a, x)
        }),
{
    assert(keys(a + b) =~= keys(a) + keys(b));
    lemma_index_of_concat(keys(a), keys(b), x);
    lemma_index_of(keys(a), x);
    lemma_index_of(keys(b), x);
}

/// Parameters that are fresh are bound to their arguments, each to its
/// own.
pub proof fn lemma_bind_fresh(env: EnvView, ps: Seq<Name>, vs: Seq<SnakeVal>, j: int)
    requires
        ps.len() == vs.len(),
        fresh(ps, keys(env)),
        0 <= j < ps.len(),
    ensures
        lookup(bind_params(env, ps, vs), ps[j]) == Some(vs[j]),
        lookup(env, ps[j]) is None,
{
    let zipped = Seq::new(ps.len(), |i: int| (ps[i], vs[i]));
    lemma_lookup_concat(env, zipped, ps[j]);
    assert(keys(zipped) =~= ps);
    lemma_index_of(ps, ps[j]);
    let i = index_of(ps, ps[j]);
    assert(i == j) by {
        if i != j {
            assert(i > j);
            lemma_has_name_concat(keys(env), ps.take(i), ps[i]);
            lemma_index_of(ps.take(i), ps[i]);
            assert(ps.take(i)[j] == ps[i]);
            assert(ps.take(i).contains(ps[i]));
        }
    }
    lemma_has_name_concat(keys(env), ps.take(j), ps[j]);
    lemma_lookup_keys(env, ps[j]);
}

/// A name that is not among the parameters is bound as before them.
pub proof fn lemma_bind_other(env: EnvView, ps: Seq<Name>, vs: Seq<SnakeVal>, x: Name)
    requires
        ps.len() == vs.len(),
        !has_name(ps, x),
    ensures
        lookup(bind_params(env, ps, vs), x) == lookup(env, x),
{
    let zipped = Seq::new(ps.len(), |i: int| (ps[i], vs[i]));
    lemma_lookup_concat(env, zipped, x);
    assert(keys(zipped) =~= ps);
    lemma_lookup_keys(zipped, x);
}

/// The function that carries a name is found by it, where no other
/// carries it.
pub proof fn lemma_find_distinct(all: Seq<FunTerm>, g: FunTerm)
    requires
        distinct_names(all),
        all.contains(g),
    ensures
        0 <= find_fun(decl_names(all), g.name) < all.len(),
        all[find_fun(decl_names(all), g.name)] == g,
{
    let i = choose|i: int| 0 <= i < all.len() && all[i] == g;
    let names = decl_names(all);
    lemma_index_of(names, g.name);
    assert(names[i] == g.name);
    assert(names.contains(g.name));
    let j = index_of(names, g.name);
    assert(all[j].name == all[i].name);
}

/// Functions that are all among others: so is each part of them.
pub proof fn lemma_contains_parts(all: Seq<FunTerm>, a: Seq<FunTerm>, b: Seq<FunTerm>)
    requires
        contains_all(all, a + b),
    ensures
        contains_all(all, a),
        contains_all(all, b),
{
    assert forall|k: int| 0 <= k < a.len() implies all.contains(#[trigger] a[k]) by {
        assert((a + b)[k] == a[k]);
    }
    assert forall|k: int| 0 <= k < b.len() implies all.contains(#[trigger] b[k]) by {
        assert((a + b)[a.len() + k] == b[k]);
    }
}

/// Functions among functions that are among others are among the others.
pub proof fn lemma_contains_trans(all: Seq<FunTerm>, mid: Seq<FunTerm>, gs: Seq<FunTerm>)
    requires
        contains_all(all, mid),
        contains_all(mid, gs),
    ensures
        contains_all(all, gs),
{
    assert forall|k: int| 0 <= k < gs.len() implies all.contains(#[trigger] gs[k]) by {
        let i = choose|i: int| 0 <= i < mid.len() && mid[i] == gs[k];
        assert(all.contains(mid[i]));
    }
}

/// What lifting makes of the function at `j` of a group is among the
/// functions lifted from the group, and so is whatever was lifted out of
/// its body.
pub proof fn lemma_lift_decls_parts(ds: Seq<FunTerm>, cap: Seq<Name>, funs: FunTable, j: int)
    requires
        0 <= j < ds.len(),
    ensures
        lift_decls(ds, cap, funs).contains(
            FunTerm {
                name: ds[j].name,
                params: ds[j].params + cap,
                body: lift(ds[j].body, ds[j].params + cap, funs).0,
            },
        ),
        contains_all(lift_decls(ds, cap, funs), lift(ds[j].body, ds[j].params + cap, funs).1),
    decreases ds.len(),
{
    let dl = ds.drop_last();
    let d = ds.last();
    let (body, gs) = lift(d.body, d.params + cap, funs);
    let lifted = FunTerm { name: d.name, params: d.params + cap, body };
    let before = lift_decls(dl, cap, funs);
    let whole = lift_decls(ds, cap, funs);
    assert(whole == before + gs.push(lifted));
    if j == ds.len() - 1 {
        assert(whole[(before.len() + gs.len()) as int] == lifted);
        assert forall|k: int| 0 <= k < gs.len() implies whole.contains(#[trigger] gs[k]) by {
            assert(whole[before.len() + k] == gs[k]);
        }
    } else {
        lemma_lift_decls_parts(dl, cap, funs, j);
        assert(dl[j] == ds[j]);
        let target = FunTerm {
            name: ds[j].name,
            params: ds[j].params + cap,
            body: lift(ds[j].body, ds[j].params + cap, funs).0,
        };
        let i = choose|i: int| 0 <= i < before.len() && before[i] == target;
        assert(whole[i] == target);
        let inner = lift(ds[j].body, ds[j].params + cap, funs).1;
        assert forall|k: int| 0 <= k < inner.len() implies whole.contains(#[trigger] inner[k]) by {
            let i2 = choose|i2: int| 0 <= i2 < before.len() && before[i2] == inner[k];
            assert(whole[i2] == inner[k]);
        }
    }
}

/// The names of the closures in scope are those of the table of lifting.
pub proof fn lemma_world_keys(fenv: FunEnv, table: FunTable, env: EnvView, all: Seq<FunTerm>)
    requires
        world_ok(fenv, table, env, all),
    ensures
        keys(table) == keys(fenv),
        keys(arities(fenv)) == keys(fenv),
{
    assert forall|k: int| 0 <= k < fenv.len() implies keys(table)[k] == keys(fenv)[k] by {
        assert(entry_ok(k, fenv, table, env, all));
    }
    assert(keys(table) =~= keys(fenv));
    assert(keys(arities(fenv)) =~= keys(fenv));
}

/// The world stays in order where the environment gets a binding for a
/// name that it did not bind.
pub proof fn lemma_world_push(
    fenv: FunEnv,
    table: FunTable,
    env: EnvView,
    all: Seq<FunTerm>,
    x: Name,
    v: SnakeVal,
)
    requires
        world_ok(fenv, table, env, all),
        lookup(env, x) is None,
    ensures
        world_ok(fenv, table, env.push((x, v)), all),
{
    let env1 = env.push((x, v));
    assert forall|k: int| 0 <= k < fenv.len() implies entry_ok(k, fenv, table, env1, all) by {
        assert(entry_ok(k, fenv, table, env, all));
        let c = fenv[k].1;
        if lookup(c.env, x) is Some {
            assert(lookup(env, x) == lookup(c.env, x));
        }
        lemma_ext_push(c.env, env, x, v);
    }
}

/// An environment binds what it bound before parameters that are fresh.
pub proof fn lemma_ext_bind(env: EnvView, ps: Seq<Name>, vs: Seq<SnakeVal>)
    requires
        ps.len() == vs.len(),
        fresh(ps, keys(env)),
    ensures
        ext(env, bind_params(env, ps, vs)),
        keys(bind_params(env, ps, vs)) == keys(env) + ps,
{
    assert(keys(bind_params(env, ps, vs)) =~= keys(env) + ps);
    assert forall|y: Name| lookup(env, y) is Some implies #[trigger] lookup(
        bind_params(env, ps, vs),
        y,
    ) == lookup(env, y) by {
        lemma_lookup_keys(env, y);
        if has_name(ps, y) {
            lemma_index_of(ps, y);
            let j = index_of(ps, y);
            lemma_bind_fresh(env, ps, vs, j);
        }
        lemma_bind_other(env, ps, vs, y);
    }
}

/// The world stays in order where a group of functions comes into scope.
pub proof fn lemma_world_group(
    fenv: FunEnv,
    table: FunTable,
    env: EnvView,
    all: Seq<FunTerm>,
    ds: Seq<FunTerm>,
    cap: Seq<Name>,
)
    requires
        world_ok(fenv, table, env, all),
        distinct_names(all),
        forall|y: Name| has_name(cap, y) ==> #[trigger] lookup(env, y) is Some,
        forall|i: int|
            0 <= i < ds.len() ==> liftable(
                (#[trigger] ds[i]).body,
                ds[i].params + cap,
                with_group(table, ds, cap),
            ) && fresh(ds[i].params, keys(env)) && tidy(
                ds[i].body,
                keys(env) + ds[i].params,
                arities(fenv) + group_arities(ds),
            ),
        contains_all(all, lift_decls(ds, cap, with_group(table, ds, cap))),
    ensures
        world_ok(group_env(env, fenv, ds), with_group(table, ds, cap), env, all),
        arities(group_env(env, fenv, ds)) == arities(fenv) + group_arities(ds),
{
    let fenv1 = group_env(env, fenv, ds);
    let table1 = with_group(table, ds, cap);
    let old = fenv.len() as int;
    assert(arities(fenv1) =~= arities(fenv) + group_arities(ds));
    assert forall|k: int| 0 <= k < fenv1.len() implies entry_ok(k, fenv1, table1, env, all) by {
        if k < old {
            assert(entry_ok(k, fenv, table, env, all));
            let c = fenv[k].1;
            let b = k - c.index;
            let n = c.group.len();
            assert(fenv1[k] == fenv[k]);
            assert(table1[k] == table[k]);
            assert(fenv1.take(b) =~= fenv.take(b));
            assert(table1.take(b + n) =~= table.take(b + n));
            assert(arities(fenv1).take(b + n) =~= arities(fenv).take(b + n));
            assert forall|j: int| 0 <= j < n implies #[trigger] fenv1[b + j] == (
                c.group[j].name,
                Clo { env: c.env, fenv: c.fenv, group: c.group, index: j as nat },
            ) && table1[b + j] == (c.group[j].name, table[k].1) by {
                assert(fenv1[b + j] == fenv[b + j]);
                assert(table1[b + j] == table[b + j]);
            }
            assert forall|k2: int| 0 <= k2 < b implies ext((#[trigger] fenv1[k2]).1.env, c.env) by {
                assert(fenv1[k2] == fenv[k2]);
            }
        } else {
            let j = k - old;
            let c = Clo { env, fenv, group: ds, index: j as nat };
            assert(fenv1[k] == (ds[j].name, c));
            assert(table1[k] == (ds[j].name, cap));
            assert(fenv1.take(old) =~= fenv);
            assert(table1.take(old + ds.len()) =~= table1);
            assert(arities(fenv1).take(old + ds.len()) =~= arities(fenv1));
            assert forall|k2: int| 0 <= k2 < old implies ext((#[trigger] fenv1[k2]).1.env, env) by {
                assert(fenv1[k2] == fenv[k2]);
                assert(entry_ok(k2, fenv, table, env, all));
            }
            assert forall|y: Name| lookup(env, y) is Some implies #[trigger] lookup(env, y)
                == lookup(env, y) by {}
            lemma_lift_decls_parts(ds, cap, table1, j);
            let target = FunTerm {
                name: ds[j].name,
                params: ds[j].params + cap,
                body: lift(ds[j].body, ds[j].params + cap, table1).0,
            };
            let mine = lift_decls(ds, cap, table1);
            let i = choose|i: int| 0 <= i < mine.len() && mine[i] == target;
            assert(all.contains(mine[i]));
            lemma_find_distinct(all, target);
            lemma_contains_trans(all, mine, lift(ds[j].body, ds[j].params + cap, table1).1);
        }
    }
}

/// The world of a function that is called: the functions that were in
/// scope where it was defined, with its own group, under its own
/// environment with the parameters bound.
pub proof fn lemma_world_call(
    fenv: FunEnv,
    table: FunTable,
    env: EnvView,
    all: Seq<FunTerm>,
    k: int,
    vs: Seq<SnakeVal>,
)
    requires
        world_ok(fenv, table, env, all),
        0 <= k < fenv.len(),
        vs.len() == clo_decl(fenv[k].1).params.len(),
    ensures
        ({
            let c = fenv[k].1;
            let m = k - c.index + c.group.len();
            &&& group_env(c.env, c.fenv, c.group) == fenv.take(m)
            &&& arities(fenv.take(m)) == arities(fenv).take(m)
            &&& world_ok(
                fenv.take(m),
                table.take(m),
                bind_params(c.env, clo_decl(c).params, vs),
                all,
            )
        }),
{
    assert(entry_ok(k, fenv, table, env, all));
    let c = fenv[k].1;
    let d = clo_decl(c);
    let b = k - c.index;
    let n = c.group.len();
    let m = b + n;
    let fenv2 = fenv.take(m);
    let table2 = table.take(m);
    let env2 = bind_params(c.env, d.params, vs);
    assert(group_env(c.env, c.fenv, c.group) =~= fenv2) by {
        assert forall|i: int| 0 <= i < m implies group_env(c.env, c.fenv, c.group)[i]
            == fenv2[i] by {
            if i >= b {
                assert(fenv[b + (i - b)] == (
                    c.group[i - b].name,
                    Clo { env: c.env, fenv: c.fenv, group: c.group, index: (i - b) as nat },
                ));
            }
        }
    }
    assert(arities(fenv2) =~= arities(fenv).take(m));
    lemma_ext_bind(c.env, d.params, vs);
    assert forall|k2: int| 0 <= k2 < m implies entry_ok(k2, fenv2, table2, env2, all) by {
        assert(entry_ok(k2, fenv, table, env, all));
        let c2 = fenv[k2].1;
        let b2 = k2 - c2.index;
        let n2 = c2.group.len();
        if k2 >= b {
            assert(fenv[b + (k2 - b)] == (
                c.group[k2 - b].name,
                Clo { env: c.env, fenv: c.fenv, group: c.group, index: (k2 - b) as nat },
            ));
            assert(b2 == b && n2 == n);
        } else {
            if b2 + n2 > b {
                assert(fenv[b2 + (b - b2)] == (
                    c2.group[b - b2].name,
                    Clo { env: c2.env, fenv: c2.fenv, group: c2.group, index: (b - b2) as nat },
                ));
                assert(fenv[b + 0] == (
                    c.group[0].name,
                    Clo { env: c.env, fenv: c.fenv, group: c.group, index: 0 },
                ));
            }
            assert(b2 + n2 <= b);
            assert(ext(fenv[k2].1.env, c.env));
            lemma_ext_trans(c2.env, c.env, env2);
        }
        assert(fenv2[k2] == fenv[k2]);
        assert(table2[k2] == table[k2]);
        assert(fenv2.take(b2) =~= fenv.take(b2));
        assert(table2.take(b2 + n2) =~= table.take(b2 + n2));
        assert(arities(fenv2).take(b2 + n2) =~= arities(fenv).take(b2 + n2));
        assert forall|j: int| 0 <= j < n2 implies #[trigger] fenv2[b2 + j] == (
            c2.group[j].name,
            Clo { env: c2.env, fenv: c2.fenv, group: c2.group, index: j as nat },
        ) && table2[b2 + j] == (c2.group[j].name, table[k2].1) by {
            assert(fenv2[b2 + j] == fenv[b2 + j]);
            assert(table2[b2 + j] == table[b2 + j]);
        }
        assert forall|k3: int| 0 <= k3 < b2 implies ext((#[trigger] fenv2[k3]).1.env, c2.env) by {
            assert(fenv2[k3] == fenv[k3]);
        }
    }
}

/// The values of arguments followed by variables: those of the arguments
/// and what the variables are bound to.
pub proof fn lemma_eval_vars(
    all: Seq<FunTerm>,
    xs: Seq<Term>,
    ys: Seq<Name>,
    env: EnvView,
    fuel: nat,
    out: Seq<char>,
)
    requires
        forall|i: int| 0 <= i < ys.len() ==> lookup(env, #[trigger] ys[i]) is Some,
    ensures
        eval_args(all, xs + vars(ys), env, fuel, out) == (match eval_args(
            all,
            xs,
            env,
            fuel,
            out,
        ) {
            ResList::Fail(f, o) => ResList::Fail(f, o),
            ResList::Done(vs, o) => ResList::Done(
                vs + Seq::new(ys.len(), |i: int| lookup(env, ys[i])->0),
                o,
            ),
        }),
    decreases ys.len(),
{
    if ys.len() == 0 {
        assert(xs + vars(ys) =~= xs);
        if let ResList::Done(vs, o) = eval_args(all, xs, env, fuel, out) {
            assert(vs + Seq::new(ys.len(), |i: int| lookup(env, ys[i])->0) =~= vs);
        }
    } else {
        let yd = ys.drop_last();
        assert forall|i: int| 0 <= i < yd.len() implies lookup(env, #[trigger] yd[i]) is Some by {
            assert(yd[i] == ys[i]);
        }
        lemma_eval_vars(all, xs, yd, env, fuel, out);
        let whole = xs + vars(ys);
        assert(whole.drop_last() =~= xs + vars(yd));
        assert(whole.last() == Term::Var(ys.last()));
        assert(lookup(env, ys[ys.len() - 1]) is Some);
        let v = lookup(env, ys.last())->0;
        match eval_args(all, xs, env, fuel, out) {
            ResList::Fail(f, o) => {
                assert(eval_args(all, whole.drop_last(), env, fuel, out) == ResList::Fail(f, o));
            },
            ResList::Done(vs, o) => {
                let before = vs + Seq::new(yd.len(), |i: int| lookup(env, yd[i])->0);
                assert(eval_args(all, whole.drop_last(), env, fuel, out) == ResList::Done(
                    before,
                    o,
                ));
                assert(eval(all, whole.last(), env, fuel, o) == Res::Done(v, o));
                assert(before.push(v) =~= vs + Seq::new(
                    ys.len(),
                    |i: int| lookup(env, ys[i])->0,
                ));
                assert(eval_args(all, whole, env, fuel, out) == ResList::Done(before.push(v), o));
            },
        }
    }
}

/// As many values as arguments.
pub proof fn lemma_beval_args_len(
    args: Seq<Term>,
    env: EnvView,
    fenv: FunEnv,
    fuel: nat,
    out: Seq<char>,
)
    ensures
        beval_args(args, env, fenv, fuel, out) matches ResList::Done(vs, _) ==> vs.len()
            == args.len(),
    decreases args.len(),
{
    if args.len() > 0 {
        lemma_beval_args_len(args.drop_last(), env, fenv, fuel, out);
    }
}

/// Names that are fresh beside some names are fresh by themselves.
pub proof fn lemma_fresh_alone(ps: Seq<Name>, vs: Seq<Name>)
    requires
        fresh(ps, vs),
    ensures
        fresh(ps, Seq::empty()),
{
    let none: Seq<Name> = Seq::empty();
    assert forall|j: int| 0 <= j < ps.len() implies !has_name(none + ps.take(j), #[trigger] ps[j]) by {
        lemma_has_name_concat(vs, ps.take(j), ps[j]);
        lemma_has_name_concat(none, ps.take(j), ps[j]);
    }
}

/// The variables of a function that is called: the lifted function finds
/// each parameter and each captured variable bound to what the closure
/// finds.
pub proof fn lemma_callee_agree(
    cenv: EnvView,
    ps: Seq<Name>,
    vs: Seq<SnakeVal>,
    cap: Seq<Name>,
    cv: Seq<SnakeVal>,
)
    requires
        ps.len() == vs.len(),
        cap.len() == cv.len(),
        fresh(ps, keys(cenv)),
        forall|i: int| 0 <= i < cap.len() ==> lookup(cenv, #[trigger] cap[i]) == Some(cv[i]),
    ensures
        vars_agree(
            bind_params(cenv, ps, vs),
            bind_params(Seq::empty(), ps + cap, vs + cv),
            ps + cap,
        ),
{
    let none: EnvView = Seq::empty();
    let env1 = bind_params(cenv, ps, vs);
    let env2 = bind_params(none, ps + cap, vs + cv);
    let left = bind_params(none, ps, vs);
    let right = bind_params(none, cap, cv);
    assert(env2 =~= left + right);
    assert(keys(right) =~= cap);
    lemma_ext_bind(cenv, ps, vs);
    lemma_fresh_alone(ps, keys(cenv));
    assert(keys(none) =~= Seq::<Name>::empty());
    assert forall|x: Name| has_name(ps + cap, x) implies lookup(env1, x) is Some && #[trigger] lookup(
        env2,
        x,
    ) == lookup(env1, x) by {
        lemma_has_name_concat(ps, cap, x);
        lemma_lookup_concat(left, right, x);
        lemma_lookup_keys(right, x);
        if has_name(cap, x) {
            let i = index_of(cap, x);
            lemma_index_of(cap, x);
            assert(lookup(cenv, cap[i]) == Some(cv[i]));
            assert(lookup(env1, x) == lookup(cenv, x));
        } else {
            lemma_index_of(ps, x);
            let j = index_of(ps, x);
            lemma_bind_fresh(cenv, ps, vs, j);
            lemma_bind_fresh(none, ps, vs, j);
        }
    }
}

/// One more variable bound on both sides, under a name that was not
/// bound: the environments agree on it too, and the functions in scope
/// still go with the table.
pub proof fn lemma_bound(
    fenv: FunEnv,
    table: FunTable,
    all: Seq<FunTerm>,
    env: EnvView,
    env2: EnvView,
    sc: Seq<Name>,
    x: Name,
    v: SnakeVal,
)
    requires
        world_ok(fenv, table, env, all),
        vars_agree(env, env2, sc),
        !has_name(keys(env), x),
    ensures
        world_ok(fenv, table, env.push((x, v)), all),
        vars_agree(env.push((x, v)), env2.push((x, v)), sc.push(x)),
        keys(env.push((x, v))) == keys(env).push(x),
{
    lemma_lookup_keys(env, x);
    lemma_world_push(fenv, table, env, all, x, v);
    lemma_keys_push(env, x, v);
    assert forall|y: Name| has_name(sc.push(x), y) implies lookup(env.push((x, v)), y) is Some
        && #[trigger] lookup(env2.push((x, v)), y) == lookup(env.push((x, v)), y) by {
        lemma_has_name_push(sc, x, y);
        lemma_lookup_push(env, x, v, y);
        lemma_lookup_push(env2, x, v, y);
        if y != x {
            assert(lookup(env2, y) == lookup(env, y));
        }
    }
}

/// Lifting keeps the meaning of an expression: under variables and
/// functions that go together with the table of lifting, what lifting
/// leaves of it comes to what it comes to with its closures.
pub proof fn lemma_lift_sound(
    all: Seq<FunTerm>,
    t: Term,
    sc: Seq<Name>,
    table: FunTable,
    env: EnvView,
    fenv: FunEnv,
    env2: EnvView,
    fuel: nat,
    out: Seq<char>,
)
    requires
        distinct_names(all),
        liftable(t, sc, table),
        tidy(t, keys(env), arities(fenv)),
        vars_agree(env, env2, sc),
        world_ok(fenv, table, env, all),
        contains_all(all, lift(t, sc, table).1),
    ensures
        eval(all, lift(t, sc, table).0, env2, fuel, out) == beval(t, env, fenv, fuel, out),
    decreases fuel, t, 1nat,
{
    match t {
        Term::Num(_) | Term::Bool(_) => {},
        Term::Var(x) => {
            assert(lookup(env2, x) == lookup(env, x));
        },
        Term::Prim(p, args) => {
            lemma_lift_args_len(args, sc, table);
            lemma_lift_args_sound(all, args, sc, table, env, fenv, env2, fuel, out);
        },
        Term::Let(bs, body) => {
            let (bs1, gs1) = lift_bindings(bs, sc, table);
            let (body1, gs2) = lift(*body, sc + bound_names(bs), table);
            lemma_contains_parts(all, gs1, gs2);
            lemma_lift_bindings_sound(all, bs, sc, table, env, fenv, env2, fuel, out);
            match beval_bindings(bs, env, fenv, fuel, out) {
                ResEnv::Fail(_, _) => {},
                ResEnv::Done(env1, o) => {
                    let env3 = eval_bindings(all, bs1, env2, fuel, out)->Done_0;
                    lemma_lift_sound(
                        all,
                        *body,
                        sc + bound_names(bs),
                        table,
                        env1,
                        fenv,
                        env3,
                        fuel,
                        o,
                    );
                },
            }
        },
        Term::If(c, a, b) => {
            let gs1 = lift(*c, sc, table).1;
            let gs2 = lift(*a, sc, table).1;
            let gs3 = lift(*b, sc, table).1;
            lemma_contains_parts(all, gs1 + gs2, gs3);
            lemma_contains_parts(all, gs1, gs2);
            lemma_lift_sound(all, *c, sc, table, env, fenv, env2, fuel, out);
            match beval(*c, env, fenv, fuel, out) {
                Res::Fail(_, _) => {},
                Res::Done(_, o) => {
                    lemma_lift_sound(all, *a, sc, table, env, fenv, env2, fuel, o);
                    lemma_lift_sound(all, *b, sc, table, env, fenv, env2, fuel, o);
                },
            }
        },
        Term::FunDefs(ds, body) => {
            let cap = captured_decls(ds, sc, table, Seq::empty());
            let table1 = with_group(table, ds, cap);
            let gs1 = lift_decls(ds, cap, table1);
            let gs2 = lift(*body, sc, table1).1;
            lemma_contains_parts(all, gs1, gs2);
            lemma_group_liftable(ds, *body, sc, table);
            assert forall|y: Name| has_name(cap, y) implies #[trigger] lookup(env, y) is Some by {
                lemma_index_of(cap, y);
                assert(has_name(sc, cap[index_of(cap, y)]));
                assert(lookup(env2, y) == lookup(env, y));
            }
            assert forall|i: int| 0 <= i < ds.len() implies liftable(
                (#[trigger] ds[i]).body,
                ds[i].params + cap,
                table1,
            ) && fresh(ds[i].params, keys(env)) && tidy(
                ds[i].body,
                keys(env) + ds[i].params,
                arities(fenv) + group_arities(ds),
            ) by {}
            lemma_world_group(fenv, table, env, all, ds, cap);
            lemma_lift_sound(
                all,
                *body,
                sc,
                table1,
                env,
                group_env(env, fenv, ds),
                env2,
                fuel,
                out,
            );
        },
        Term::Call(f, args) => {
            lemma_lift_call_sound(all, f, args, sc, table, env, fenv, env2, fuel, out);
        },
        Term::InternalTailCall(_, _) => {},
        Term::ExternalCall(_, _, _) => {},
    }
}

/// Lifting keeps the meaning of a call: the lifted function is handed
/// the captured variables after the arguments, and finds them bound as
/// the closure does.
pub proof fn lemma_lift_call_sound(
    all: Seq<FunTerm>,
    f: Name,
    args: Seq<Term>,
    sc: Seq<Name>,
    table: FunTable,
    env: EnvView,
    fenv: FunEnv,
    env2: EnvView,
    fuel: nat,
    out: Seq<char>,
)
    requires
        distinct_names(all),
        liftable(Term::Call(f, args), sc, table),
        tidy(Term::Call(f, args), keys(env), arities(fenv)),
        vars_agree(env, env2, sc),
        world_ok(fenv, table, env, all),
        contains_all(all, lift(Term::Call(f, args), sc, table).1),
    ensures
        eval(all, lift(Term::Call(f, args), sc, table).0, env2, fuel, out) == beval(
            Term::Call(f, args),
            env,
            fenv,
            fuel,
            out,
        ),
    decreases fuel, Term::Call(f, args), 0nat,
{
    let args1 = lift_args(args, sc, table).0;
    lemma_lift_args_len(args, sc, table);
    lemma_lift_args_sound(all, args, sc, table, env, fenv, env2, fuel, out);
    lemma_world_keys(fenv, table, env, all);
    lemma_lookup_keys(arities(fenv), f);
    lemma_lookup_keys(fenv, f);
    let k = index_of(keys(fenv), f);
    let c = fenv[k].1;
    let d = clo_decl(c);
    assert(entry_ok(k, fenv, table, env, all));
    let cap = table[k].1;
    assert(lookup(arities(fenv), f) is Some);
    lemma_index_of(keys(fenv), f);
    assert(keys(fenv)[k] == f);
    assert(extras(table, f) == cap);
    assert(arities(fenv)[k].1 == d.params.len());
    let cv = Seq::new(cap.len(), |i: int| lookup(env2, cap[i])->0);
    assert forall|i: int| 0 <= i < cap.len() implies lookup(env2, #[trigger] cap[i])
        is Some && lookup(c.env, cap[i]) == Some(cv[i]) by {
        assert(has_name(sc, cap[i]));
        lemma_index_of(cap, cap[i]);
        assert(has_name(cap, cap[i]));
        assert(lookup(c.env, cap[i]) is Some);
        assert(lookup(env, cap[i]) == lookup(c.env, cap[i]));
        assert(lookup(env2, cap[i]) == lookup(env, cap[i]));
    }
    lemma_eval_vars(all, args1, cap, env2, fuel, out);
    lemma_beval_args_len(args, env, fenv, fuel, out);
    match beval_args(args, env, fenv, fuel, out) {
        ResList::Fail(_, _) => {},
        ResList::Done(vs, o) => {
            let found = find_fun(decl_names(all), f);
            assert(decl_names(all)[found] == all[found].name);
            assert(arities_of(all)[found] == all[found].params.len());
            assert(arities_of(all)[found] == d.params.len() + cap.len());
            assert((vs + cv).len() == d.params.len() + cap.len());
            if fuel > 0 {
                let m = k - c.index + c.group.len();
                let env_c = bind_params(c.env, d.params, vs);
                let env2_c = bind_params(Seq::empty(), d.params + cap, vs + cv);
                lemma_world_call(fenv, table, env, all, k, vs);
                lemma_callee_agree(c.env, d.params, vs, cap, cv);
                lemma_ext_bind(c.env, d.params, vs);
                lemma_lift_sound(
                    all,
                    d.body,
                    d.params + cap,
                    table.take(m),
                    env_c,
                    fenv.take(m),
                    env2_c,
                    (fuel - 1) as nat,
                    o,
                );
            }
        },
    }
}

/// Lifting keeps the values of a list of arguments.
pub proof fn lemma_lift_args_sound(
    all: Seq<FunTerm>,
    args: Seq<Term>,
    sc: Seq<Name>,
    table: FunTable,
    env: EnvView,
    fenv: FunEnv,
    env2: EnvView,
    fuel: nat,
    out: Seq<char>,
)
    requires
        distinct_names(all),
        forall|i: int| 0 <= i < args.len() ==> liftable(#[trigger] args[i], sc, table),
        forall|i: int| 0 <= i < args.len() ==> tidy(#[trigger] args[i], keys(env), arities(fenv)),
        vars_agree(env, env2, sc),
        world_ok(fenv, table, env, all),
        contains_all(all, lift_args(args, sc, table).1),
    ensures
        eval_args(all, lift_args(args, sc, table).0, env2, fuel, out) == beval_args(
            args,
            env,
            fenv,
            fuel,
            out,
        ),
    decreases fuel, args, 2nat,
{
    if args.len() > 0 {
        let ad = args.drop_last();
        let (before, gs1) = lift_args(ad, sc, table);
        let (last, gs2) = lift(args.last(), sc, table);
        lemma_contains_parts(all, gs1, gs2);
        assert forall|i: int| 0 <= i < ad.len() implies liftable(#[trigger] ad[i], sc, table)
            && tidy(ad[i], keys(env), arities(fenv)) by {
            assert(ad[i] == args[i]);
        }
        lemma_lift_args_sound(all, ad, sc, table, env, fenv, env2, fuel, out);
        let whole = lift_args(args, sc, table).0;
        assert(whole == before.push(last));
        assert(whole.drop_last() =~= before);
        assert(whole.last() == last);
        match beval_args(ad, env, fenv, fuel, out) {
            ResList::Fail(_, _) => {},
            ResList::Done(_, o) => {
                lemma_lift_sound(all, args.last(), sc, table, env, fenv, env2, fuel, o);
            },
        }
    }
}

/// Lifting keeps what the bindings of a `let` bind: where they fail, so
/// do the lifted ones; where they are made, the two environments agree
/// again, and the functions in scope still go with the table.
pub proof fn lemma_lift_bindings_sound(
    all: Seq<FunTerm>,
    bs: Seq<(Name, Term)>,
    sc: Seq<Name>,
    table: FunTable,
    env: EnvView,
    fenv: FunEnv,
    env2: EnvView,
    fuel: nat,
    out: Seq<char>,
)
    requires
        distinct_names(all),
        forall|i: int|
            0 <= i < bs.len() ==> liftable(
                (#[trigger] bs[i]).1,
                sc + bound_names(bs).take(i),
                table,
            ),
        forall|i: int|
            0 <= i < bs.len() ==> tidy(
                (#[trigger] bs[i]).1,
                keys(env) + bound_names(bs).take(i),
                arities(fenv),
            ),
        fresh(bound_names(bs), keys(env)),
        vars_agree(env, env2, sc),
        world_ok(fenv, table, env, all),
        contains_all(all, lift_bindings(bs, sc, table).1),
    ensures
        match beval_bindings(bs, env, fenv, fuel, out) {
            ResEnv::Fail(f, o) => eval_bindings(
                all,
                lift_bindings(bs, sc, table).0,
                env2,
                fuel,
                out,
            ) == ResEnv::Fail(f, o),
            ResEnv::Done(env1, o) => match eval_bindings(
                all,
                lift_bindings(bs, sc, table).0,
                env2,
                fuel,
                out,
            ) {
                ResEnv::Fail(_, _) => false,
                ResEnv::Done(env3, o3) => o3 == o && keys(env1) == keys(env) + bound_names(bs)
                    && vars_agree(env1, env3, sc + bound_names(bs)) && world_ok(
                    fenv,
                    table,
                    env1,
                    all,
                ),
            },
        },
    decreases fuel, bs, 2nat,
{
    let names = bound_names(bs);
    if bs.len() == 0 {
        assert(sc + names =~= sc);
        assert(keys(env) + names =~= keys(env));
    } else {
        let bd = bs.drop_last();
        let nd = bound_names(bd);
        let x = bs.last().0;
        let (before, gs1) = lift_bindings(bd, sc, table);
        let (last, gs2) = lift(bs.last().1, sc + nd, table);
        lemma_contains_parts(all, gs1, gs2);
        assert(nd =~= names.take(bs.len() - 1));
        assert forall|i: int| 0 <= i < bd.len() implies liftable(
            (#[trigger] bd[i]).1,
            sc + nd.take(i),
            table,
        ) && tidy(bd[i].1, keys(env) + nd.take(i), arities(fenv)) by {
            assert(bd[i] == bs[i]);
            assert(nd.take(i) =~= names.take(i));
        }
        assert(fresh(nd, keys(env))) by {
            assert forall|j: int| 0 <= j < nd.len() implies !has_name(
                keys(env) + nd.take(j),
                #[trigger] nd[j],
            ) by {
                assert(nd.take(j) =~= names.take(j));
                assert(nd[j] == names[j]);
            }
        }
        lemma_lift_bindings_sound(all, bd, sc, table, env, fenv, env2, fuel, out);
        let whole = lift_bindings(bs, sc, table).0;
        assert(whole == before.push((x, last)));
        assert(whole.drop_last() =~= before);
        assert(whole.last() == (x, last));
        match beval_bindings(bd, env, fenv, fuel, out) {
            ResEnv::Fail(_, _) => {},
            ResEnv::Done(env1, o) => {
                let env3 = eval_bindings(all, before, env2, fuel, out)->Done_0;
                assert(bs[bs.len() - 1] == bs.last());
                lemma_lift_sound(all, bs.last().1, sc + nd, table, env1, fenv, env3, fuel, o);
                match beval(bs.last().1, env1, fenv, fuel, o) {
                    Res::Fail(_, _) => {},
                    Res::Done(v, o1) => {
                        assert(names[bs.len() - 1] == x);
                        assert(names =~= nd.push(x));
                        assert(keys(env) + names =~= (keys(env) + nd).push(x));
                        assert(sc + names =~= (sc + nd).push(x));
                        lemma_bound(fenv, table, all, env1, env3, sc + nd, x, v);
                    },
                }
            },
        }
    }
}

/// Lifting keeps the meaning of a renamed program: what is left of it,
/// with the functions lifted out of it, prints the same and comes to the
/// same value or the same error as the renamed program with its
/// closures, whatever number of nested calls may be made.
pub proof fn lemma_lifting_keeps_meaning(t: Term, fuel: nat, out: Seq<char>)
    requires
        surface(t),
        scoped(t, Seq::empty()),
    ensures
        eval(
            lambda_lift_term(t).1,
            lambda_lift_term(t).0,
            Seq::empty(),
            fuel,
            out,
        ) == beval(uniquify_term(t), Seq::empty(), Seq::empty(), fuel, out),
{
    let none: Seq<Name> = Seq::empty();
    let env: EnvView = Seq::empty();
    let fenv: FunEnv = Seq::empty();
    let table: FunTable = Seq::empty();
    let u = uniquify_term(t);
    let all = lift(u, none, table).1;
    lemma_uniq_liftable(t, Seq::empty(), Seq::empty(), none, 0);
    assert(keys(env) =~= none);
    assert(arities(fenv) =~= Seq::empty());
    assert(keys(arities(fenv)) =~= none);
    lemma_uniq_tidy(t, Seq::empty(), Seq::empty(), 0, none, Seq::empty());
    lemma_lifted_distinct(t);
    lemma_lift_sound(all, u, none, table, env, fenv, env, fuel, out);
}

} // verus!
