//! Lifting keeps every variable in scope: what it leaves of an expression,
//! and every function it lifts, reads only names that are bound.

use crate::lambda_lift::{add_name, add_names, bound_names, captured, captured_args};
use crate::lambda_lift::{captured_bindings, captured_decls, extras, FunTable, lift, lift_args};
use crate::lambda_lift::{lift_bindings, lift_decls, vars, with_group};
use crate::names::{has_name, keys, lemma_index_of};
use crate::scopes::{globals_ready, lemma_has_name_concat, lemma_has_name_push};
use crate::scopes::{lemma_index_of_concat, lemma_names_in_concat, liftable, names_in, ready};
use crate::syntax::{FunTerm, Name, Term};
use crate::uniquify::decl_names;
use vstd::prelude::*;

verus! {

/// Adding a name keeps the names that were there, and adds the name where
/// it is in scope.
pub proof fn lemma_add_name(acc: Seq<Name>, x: Name, sc: Seq<Name>, y: Name)
    ensures
        has_name(acc, y) ==> has_name(add_name(acc, x, sc), y),
        has_name(sc, x) ==> has_name(add_name(acc, x, sc), x),
        has_name(add_name(acc, x, sc), y) ==> has_name(acc, y) || (y == x && has_name(sc, x)),
{
    lemma_has_name_push(acc, x, y);
    lemma_has_name_push(acc, x, x);
}

/// Adding names keeps the names that were there, and adds each name that is
/// in scope.
pub proof fn lemma_add_names(acc: Seq<Name>, xs: Seq<Name>, sc: Seq<Name>, y: Name)
    ensures
        has_name(acc, y) ==> has_name(add_names(acc, xs, sc), y),
        has_name(xs, y) && has_name(sc, y) ==> has_name(add_names(acc, xs, sc), y),
        has_name(add_names(acc, xs, sc), y) ==> has_name(acc, y) || has_name(sc, y),
    decreases xs.len(),
{
    if xs.len() > 0 {
        lemma_add_names(acc, xs.drop_last(), sc, y);
        lemma_add_name(add_names(acc, xs.drop_last(), sc), xs.last(), sc, y);
        assert(xs.drop_last().push(xs.last()) =~= xs);
        lemma_has_name_push(xs.drop_last(), xs.last(), y);
    }
}

/// What an expression captures holds what was captured before it, and no
/// name from outside the scope.
pub proof fn lemma_captured(t: Term, sc: Seq<Name>, funs: FunTable, acc: Seq<Name>, y: Name)
    ensures
        has_name(acc, y) ==> has_name(captured(t, sc, funs, acc), y),
        has_name(captured(t, sc, funs, acc), y) ==> has_name(acc, y) || has_name(sc, y),
    decreases t,
{
    match t {
        Term::Num(_) => {},
        Term::Bool(_) => {},
        Term::Var(x) => {
            lemma_add_name(acc, x, sc, y);
        },
        Term::Prim(_, args) => {
            lemma_captured_args(args, sc, funs, acc, y);
        },
        Term::Let(bs, body) => {
            lemma_captured_bindings(bs, sc, funs, acc, y);
            lemma_captured(*body, sc, funs, captured_bindings(bs, sc, funs, acc), y);
        },
        Term::If(c, a, b) => {
            let a1 = captured(*c, sc, funs, acc);
            let a2 = captured(*a, sc, funs, a1);
            lemma_captured(*c, sc, funs, acc, y);
            lemma_captured(*a, sc, funs, a1, y);
            lemma_captured(*b, sc, funs, a2, y);
        },
        Term::FunDefs(ds, body) => {
            lemma_captured_decls(ds, sc, funs, acc, y);
            lemma_captured(*body, sc, funs, captured_decls(ds, sc, funs, acc), y);
        },
        Term::Call(f, args) => {
            lemma_captured_args(args, sc, funs, acc, y);
            lemma_add_names(captured_args(args, sc, funs, acc), extras(funs, f), sc, y);
        },
        Term::InternalTailCall(_, args) => {
            lemma_captured_args(args, sc, funs, acc, y);
        },
        Term::ExternalCall(_, args, _) => {
            lemma_captured_args(args, sc, funs, acc, y);
        },
    }
}

pub proof fn lemma_captured_args(
    args: Seq<Term>,
    sc: Seq<Name>,
    funs: FunTable,
    acc: Seq<Name>,
    y: Name,
)
    ensures
        has_name(acc, y) ==> has_name(captured_args(args, sc, funs, acc), y),
        has_name(captured_args(args, sc, funs, acc), y) ==> has_name(acc, y) || has_name(sc, y),
    decreases args,
{
    if args.len() > 0 {
        lemma_captured_args(args.drop_last(), sc, funs, acc, y);
        lemma_captured(args.last(), sc, funs, captured_args(args.drop_last(), sc, funs, acc), y);
    }
}

pub proof fn lemma_captured_bindings(
    bs: Seq<(Name, Term)>,
    sc: Seq<Name>,
    funs: FunTable,
    acc: Seq<Name>,
    y: Name,
)
    ensures
        has_name(acc, y) ==> has_name(captured_bindings(bs, sc, funs, acc), y),
        has_name(captured_bindings(bs, sc, funs, acc), y) ==> has_name(acc, y) || has_name(sc, y),
    decreases bs,
{
    if bs.len() > 0 {
        lemma_captured_bindings(bs.drop_last(), sc, funs, acc, y);
        lemma_captured(
            bs.last().1,
            sc,
            funs,
            captured_bindings(bs.drop_last(), sc, funs, acc),
            y,
        );
    }
}

pub proof fn lemma_captured_decls(
    ds: Seq<FunTerm>,
    sc: Seq<Name>,
    funs: FunTable,
    acc: Seq<Name>,
    y: Name,
)
    ensures
        has_name(acc, y) ==> has_name(captured_decls(ds, sc, funs, acc), y),
        has_name(captured_decls(ds, sc, funs, acc), y) ==> has_name(acc, y) || has_name(sc, y),
    decreases ds,
{
    if ds.len() > 0 {
        lemma_captured_decls(ds.drop_last(), sc, funs, acc, y);
        lemma_captured(
            ds.last().body,
            sc,
            funs,
            captured_decls(ds.drop_last(), sc, funs, acc),
            y,
        );
    }
}

/// What the first arguments capture is captured by all of them.
pub proof fn lemma_captured_args_prefix(
    args: Seq<Term>,
    sc: Seq<Name>,
    funs: FunTable,
    acc: Seq<Name>,
    i: int,
    y: Name,
)
    requires
        0 <= i <= args.len(),
        has_name(captured_args(args.take(i), sc, funs, acc), y),
    ensures
        has_name(captured_args(args, sc, funs, acc), y),
    decreases args.len(),
{
    if i < args.len() {
        assert(args.drop_last().take(i) =~= args.take(i));
        lemma_captured_args_prefix(args.drop_last(), sc, funs, acc, i, y);
        lemma_captured(args.last(), sc, funs, captured_args(args.drop_last(), sc, funs, acc), y);
    } else {
        assert(args.take(i) =~= args);
    }
}

pub proof fn lemma_captured_bindings_prefix(
    bs: Seq<(Name, Term)>,
    sc: Seq<Name>,
    funs: FunTable,
    acc: Seq<Name>,
    i: int,
    y: Name,
)
    requires
        0 <= i <= bs.len(),
        has_name(captured_bindings(bs.take(i), sc, funs, acc), y),
    ensures
        has_name(captured_bindings(bs, sc, funs, acc), y),
    decreases bs.len(),
{
    if i < bs.len() {
        assert(bs.drop_last().take(i) =~= bs.take(i));
        lemma_captured_bindings_prefix(bs.drop_last(), sc, funs, acc, i, y);
        lemma_captured(
            bs.last().1,
            sc,
            funs,
            captured_bindings(bs.drop_last(), sc, funs, acc),
            y,
        );
    } else {
        assert(bs.take(i) =~= bs);
    }
}

pub proof fn lemma_captured_decls_prefix(
    ds: Seq<FunTerm>,
    sc: Seq<Name>,
    funs: FunTable,
    acc: Seq<Name>,
    i: int,
    y: Name,
)
    requires
        0 <= i <= ds.len(),
        has_name(captured_decls(ds.take(i), sc, funs, acc), y),
    ensures
        has_name(captured_decls(ds, sc, funs, acc), y),
    decreases ds.len(),
{
    if i < ds.len() {
        assert(ds.drop_last().take(i) =~= ds.take(i));
        lemma_captured_decls_prefix(ds.drop_last(), sc, funs, acc, i, y);
        lemma_captured(
            ds.last().body,
            sc,
            funs,
            captured_decls(ds.drop_last(), sc, funs, acc),
            y,
        );
    } else {
        assert(ds.take(i) =~= ds);
    }
}

/// Whether every name of `xs` is a name of `ys`.
pub open spec fn within(xs: Seq<Name>, ys: Seq<Name>) -> bool {
    forall|y: Name| has_name(xs, y) ==> #[trigger] has_name(ys, y)
}

/// The captured variables of a function of the group are those of the
/// group; those of another function are what they were.
pub proof fn lemma_extras_with_group(funs: FunTable, ds: Seq<FunTerm>, cap: Seq<Name>, f: Name)
    ensures
        extras(with_group(funs, ds, cap), f) == (if has_name(decl_names(ds), f) {
            cap
        } else {
            extras(funs, f)
        }),
{
    let group = Seq::new(ds.len(), |i: int| (ds[i].name, cap));
    assert(keys(with_group(funs, ds, cap)) =~= keys(funs) + decl_names(ds));
    assert(keys(funs).len() == funs.len());
    lemma_index_of_concat(keys(funs), decl_names(ds), f);
    lemma_index_of(decl_names(ds), f);
    lemma_index_of(keys(funs), f);
}

/// The names of a list are in a list that holds every name of it.
pub proof fn lemma_names_in_within(xs: Seq<Name>, sc: Seq<Name>)
    ensures
        names_in(xs, sc) <==> within(xs, sc),
{
    if names_in(xs, sc) {
        assert forall|y: Name| has_name(xs, y) implies #[trigger] has_name(sc, y) by {
            lemma_index_of(xs, y);
        }
    }
    if within(xs, sc) {
        assert forall|k: int| 0 <= k < xs.len() implies has_name(sc, #[trigger] xs[k]) by {
            lemma_index_of(xs, xs[k]);
            assert(xs.contains(xs[k]));
            assert(has_name(xs, xs[k]));
        }
    }
}

/// An expression that can be lifted under a scope can be lifted under the
/// same scope when a group of functions comes into scope whose captured
/// variables are in the scope. `l` holds the names bound since.
pub proof fn lemma_liftable_with_group(
    t: Term,
    sc: Seq<Name>,
    l: Seq<Name>,
    funs: FunTable,
    ds: Seq<FunTerm>,
    cap: Seq<Name>,
)
    requires
        liftable(t, sc + l, funs),
        names_in(cap, sc),
    ensures
        liftable(t, sc + l, with_group(funs, ds, cap)),
    decreases t,
{
    let funs1 = with_group(funs, ds, cap);
    match t {
        Term::Num(_) => {},
        Term::Bool(_) => {},
        Term::Var(_) => {},
        Term::Prim(_, args) => {
            assert forall|i: int| 0 <= i < args.len() implies liftable(
                #[trigger] args[i],
                sc + l,
                funs1,
            ) by {
                lemma_liftable_with_group(args[i], sc, l, funs, ds, cap);
            }
        },
        Term::Let(bs, body) => {
            assert forall|i: int| 0 <= i < bs.len() implies liftable(
                (#[trigger] bs[i]).1,
                (sc + l) + bound_names(bs).take(i),
                funs1,
            ) by {
                assert((sc + l) + bound_names(bs).take(i) =~= sc + (l + bound_names(bs).take(i)));
                lemma_liftable_with_group(
                    bs[i].1,
                    sc,
                    l + bound_names(bs).take(i),
                    funs,
                    ds,
                    cap,
                );
            }
            assert((sc + l) + bound_names(bs) =~= sc + (l + bound_names(bs)));
            lemma_liftable_with_group(*body, sc, l + bound_names(bs), funs, ds, cap);
        },
        Term::If(c, a, b) => {
            lemma_liftable_with_group(*c, sc, l, funs, ds, cap);
            lemma_liftable_with_group(*a, sc, l, funs, ds, cap);
            lemma_liftable_with_group(*b, sc, l, funs, ds, cap);
        },
        Term::FunDefs(ds2, body) => {
            assert forall|i: int| 0 <= i < ds2.len() implies liftable(
                (#[trigger] ds2[i]).body,
                (sc + l) + ds2[i].params,
                funs1,
            ) by {
                assert((sc + l) + ds2[i].params =~= sc + (l + ds2[i].params));
                lemma_liftable_with_group(ds2[i].body, sc, l + ds2[i].params, funs, ds, cap);
            }
            lemma_liftable_with_group(*body, sc, l, funs, ds, cap);
        },
        Term::Call(f, args) => {
            assert forall|i: int| 0 <= i < args.len() implies liftable(
                #[trigger] args[i],
                sc + l,
                funs1,
            ) by {
                lemma_liftable_with_group(args[i], sc, l, funs, ds, cap);
            }
            lemma_extras_with_group(funs, ds, cap, f);
            lemma_names_in_concat(cap, sc, l);
        },
        Term::InternalTailCall(_, _) => {},
        Term::ExternalCall(_, _, _) => {},
    }
}

/// The body of a function that is lifted can be lifted under its own
/// parameters and the captured variables of its group: where it could be
/// lifted under the scope `sc`, its parameters `p` and the names `l` bound
/// since, and `cap` holds whatever it captures of `sc`.
pub proof fn lemma_liftable_rescoped(
    t: Term,
    sc: Seq<Name>,
    p: Seq<Name>,
    l: Seq<Name>,
    funs: FunTable,
    acc: Seq<Name>,
    ds: Seq<FunTerm>,
    cap: Seq<Name>,
)
    requires
        liftable(t, (sc + p) + l, funs),
        within(captured(t, sc, funs, acc), cap),
    ensures
        liftable(t, (p + cap) + l, with_group(funs, ds, cap)),
    decreases t,
{
    let funs1 = with_group(funs, ds, cap);
    let old_scope = (sc + p) + l;
    let new_scope = (p + cap) + l;
    match t {
        Term::Num(_) => {},
        Term::Bool(_) => {},
        Term::Var(x) => {
            lemma_has_name_concat(sc + p, l, x);
            lemma_has_name_concat(sc, p, x);
            lemma_has_name_concat(p + cap, l, x);
            lemma_has_name_concat(p, cap, x);
            lemma_add_name(acc, x, sc, x);
            if has_name(sc, x) {
                assert(has_name(captured(t, sc, funs, acc), x));
                assert(has_name(cap, x));
            }
        },
        Term::Prim(_, args) => {
            lemma_rescoped_args(args, sc, p, l, funs, acc, ds, cap);
        },
        Term::Let(bs, body) => {
            let acc1 = captured_bindings(bs, sc, funs, acc);
            assert forall|i: int| 0 <= i < bs.len() implies liftable(
                (#[trigger] bs[i]).1,
                new_scope + bound_names(bs).take(i),
                funs1,
            ) by {
                let li = l + bound_names(bs).take(i);
                let acc_i = captured_bindings(bs.take(i), sc, funs, acc);
                assert(old_scope + bound_names(bs).take(i) =~= (sc + p) + li);
                assert(new_scope + bound_names(bs).take(i) =~= (p + cap) + li);
                assert(bs.take(i + 1).drop_last() =~= bs.take(i));
                assert(bs.take(i + 1).last() == bs[i]);
                assert forall|y: Name|
                    has_name(captured(bs[i].1, sc, funs, acc_i), y) implies #[trigger] has_name(
                    cap,
                    y,
                ) by {
                    lemma_captured_bindings_prefix(bs, sc, funs, acc, i + 1, y);
                    lemma_captured(*body, sc, funs, acc1, y);
                }
                lemma_liftable_rescoped(bs[i].1, sc, p, li, funs, acc_i, ds, cap);
            }
            assert(old_scope + bound_names(bs) =~= (sc + p) + (l + bound_names(bs)));
            assert(new_scope + bound_names(bs) =~= (p + cap) + (l + bound_names(bs)));
            lemma_liftable_rescoped(*body, sc, p, l + bound_names(bs), funs, acc1, ds, cap);
        },
        Term::If(c, a, b) => {
            let a1 = captured(*c, sc, funs, acc);
            let a2 = captured(*a, sc, funs, a1);
            assert forall|y: Name| has_name(a1, y) implies #[trigger] has_name(cap, y) by {
                lemma_captured(*a, sc, funs, a1, y);
                lemma_captured(*b, sc, funs, a2, y);
            }
            assert forall|y: Name| has_name(a2, y) implies #[trigger] has_name(cap, y) by {
                lemma_captured(*b, sc, funs, a2, y);
            }
            lemma_liftable_rescoped(*c, sc, p, l, funs, acc, ds, cap);
            lemma_liftable_rescoped(*a, sc, p, l, funs, a1, ds, cap);
            lemma_liftable_rescoped(*b, sc, p, l, funs, a2, ds, cap);
        },
        Term::FunDefs(ds2, body) => {
            let acc1 = captured_decls(ds2, sc, funs, acc);
            assert forall|i: int| 0 <= i < ds2.len() implies liftable(
                (#[trigger] ds2[i]).body,
                new_scope + ds2[i].params,
                funs1,
            ) by {
                let li = l + ds2[i].params;
                let acc_i = captured_decls(ds2.take(i), sc, funs, acc);
                assert(old_scope + ds2[i].params =~= (sc + p) + li);
                assert(new_scope + ds2[i].params =~= (p + cap) + li);
                assert(ds2.take(i + 1).drop_last() =~= ds2.take(i));
                assert(ds2.take(i + 1).last() == ds2[i]);
                assert forall|y: Name|
                    has_name(
                        captured(ds2[i].body, sc, funs, acc_i),
                        y,
                    ) implies #[trigger] has_name(cap, y) by {
                    lemma_captured_decls_prefix(ds2, sc, funs, acc, i + 1, y);
                    lemma_captured(*body, sc, funs, acc1, y);
                }
                lemma_liftable_rescoped(ds2[i].body, sc, p, li, funs, acc_i, ds, cap);
            }
            lemma_liftable_rescoped(*body, sc, p, l, funs, acc1, ds, cap);
        },
        Term::Call(f, args) => {
            let acc1 = captured_args(args, sc, funs, acc);
            let ex = extras(funs, f);
            assert forall|y: Name| has_name(acc1, y) implies #[trigger] has_name(cap, y) by {
                lemma_add_names(acc1, ex, sc, y);
            }
            lemma_rescoped_args(args, sc, p, l, funs, acc, ds, cap);
            lemma_extras_with_group(funs, ds, cap, f);
            assert forall|k: int| 0 <= k < extras(funs1, f).len() implies has_name(
                new_scope,
                #[trigger] extras(funs1, f)[k],
            ) by {
                let x = extras(funs1, f)[k];
                lemma_has_name_concat(p + cap, l, x);
                lemma_has_name_concat(p, cap, x);
                if has_name(decl_names(ds), f) {
                    lemma_index_of(cap, x);
                    assert(cap.contains(x));
                } else {
                    assert(has_name(old_scope, ex[k]));
                    lemma_has_name_concat(sc + p, l, x);
                    lemma_has_name_concat(sc, p, x);
                    if has_name(sc, x) {
                        lemma_index_of(ex, x);
                        assert(ex.contains(x));
                        lemma_add_names(acc1, ex, sc, x);
                    }
                }
            }
        },
        Term::InternalTailCall(_, _) => {},
        Term::ExternalCall(_, _, _) => {},
    }
}

/// The arguments of a primitive or a call, each rescoped.
pub proof fn lemma_rescoped_args(
    args: Seq<Term>,
    sc: Seq<Name>,
    p: Seq<Name>,
    l: Seq<Name>,
    funs: FunTable,
    acc: Seq<Name>,
    ds: Seq<FunTerm>,
    cap: Seq<Name>,
)
    requires
        forall|i: int| 0 <= i < args.len() ==> liftable(#[trigger] args[i], (sc + p) + l, funs),
        within(captured_args(args, sc, funs, acc), cap),
    ensures
        forall|i: int|
            0 <= i < args.len() ==> liftable(
                #[trigger] args[i],
                (p + cap) + l,
                with_group(funs, ds, cap),
            ),
    decreases args,
{
    assert forall|i: int| 0 <= i < args.len() implies liftable(
        #[trigger] args[i],
        (p + cap) + l,
        with_group(funs, ds, cap),
    ) by {
        let acc_i = captured_args(args.take(i), sc, funs, acc);
        assert(args.take(i + 1).drop_last() =~= args.take(i));
        assert(args.take(i + 1).last() == args[i]);
        assert forall|y: Name|
            has_name(captured(args[i], sc, funs, acc_i), y) implies #[trigger] has_name(cap, y) by {
            lemma_captured_args_prefix(args, sc, funs, acc, i + 1, y);
        }
        lemma_liftable_rescoped(args[i], sc, p, l, funs, acc_i, ds, cap);
    }
}

/// Functions that are ready, followed by functions that are ready, are
/// ready.
pub proof fn lemma_globals_ready_concat(a: Seq<FunTerm>, b: Seq<FunTerm>)
    requires
        globals_ready(a),
        globals_ready(b),
    ensures
        globals_ready(a + b),
{
    assert forall|k: int| 0 <= k < (a + b).len() implies ready(
        (#[trigger] (a + b)[k]).body,
        (a + b)[k].params,
    ) by {
        if k < a.len() {
            assert((a + b)[k] == a[k]);
        } else {
            assert((a + b)[k] == b[k - a.len()]);
        }
    }
}

/// The names as variables are ready where the names are in scope.
pub proof fn lemma_vars_ready(xs: Seq<Name>, sc: Seq<Name>)
    requires
        names_in(xs, sc),
    ensures
        forall|k: int| 0 <= k < xs.len() ==> ready(#[trigger] vars(xs)[k], sc),
{
    assert forall|k: int| 0 <= k < xs.len() implies ready(#[trigger] vars(xs)[k], sc) by {
        assert(has_name(sc, xs[k]));
    }
}

/// The functions of a group that can be lifted can each be lifted under
/// its own parameters and the captured variables of the group, and what
/// stands in the scope of the group can be lifted with the group in scope;
/// the captured variables are in scope.
pub proof fn lemma_group_liftable(ds: Seq<FunTerm>, body: Term, sc: Seq<Name>, funs: FunTable)
    requires
        liftable(Term::FunDefs(ds, Box::new(body)), sc, funs),
    ensures
        names_in(captured_decls(ds, sc, funs, Seq::empty()), sc),
        liftable(body, sc, with_group(funs, ds, captured_decls(ds, sc, funs, Seq::empty()))),
        forall|i: int|
            0 <= i < ds.len() ==> liftable(
                (#[trigger] ds[i]).body,
                ds[i].params + captured_decls(ds, sc, funs, Seq::empty()),
                with_group(funs, ds, captured_decls(ds, sc, funs, Seq::empty())),
            ),
{
    let none: Seq<Name> = Seq::empty();
    let cap = captured_decls(ds, sc, funs, none);
    let funs1 = with_group(funs, ds, cap);
    assert forall|y: Name| has_name(cap, y) implies #[trigger] has_name(sc, y) by {
        lemma_captured_decls(ds, sc, funs, none, y);
    }
    lemma_names_in_within(cap, sc);
    assert(sc + none =~= sc);
    lemma_liftable_with_group(body, sc, none, funs, ds, cap);
    assert forall|i: int| 0 <= i < ds.len() implies liftable(
        (#[trigger] ds[i]).body,
        ds[i].params + cap,
        funs1,
    ) by {
        let acc_i = captured_decls(ds.take(i), sc, funs, none);
        assert(ds.take(i + 1).drop_last() =~= ds.take(i));
        assert(ds.take(i + 1).last() == ds[i]);
        assert forall|y: Name|
            has_name(captured(ds[i].body, sc, funs, acc_i), y) implies #[trigger] has_name(
            cap,
            y,
        ) by {
            lemma_captured_decls_prefix(ds, sc, funs, none, i + 1, y);
        }
        assert((sc + ds[i].params) + none =~= sc + ds[i].params);
        assert((ds[i].params + cap) + none =~= ds[i].params + cap);
        lemma_liftable_rescoped(ds[i].body, sc, ds[i].params, none, funs, acc_i, ds, cap);
    }
}

/// What lifting leaves of an expression that can be lifted is ready, and so
/// are the functions that it lifts.
pub proof fn lemma_lift_ready(t: Term, sc: Seq<Name>, funs: FunTable)
    requires
        liftable(t, sc, funs),
    ensures
        ready(lift(t, sc, funs).0, sc),
        globals_ready(lift(t, sc, funs).1),
    decreases t,
{
    match t {
        Term::Num(_) => {},
        Term::Bool(_) => {},
        Term::Var(_) => {},
        Term::Prim(p, args) => {
            lemma_lift_args_ready(args, sc, funs);
        },
        Term::Let(bs, body) => {
            lemma_lift_bindings_ready(bs, sc, funs);
            lemma_lift_ready(*body, sc + bound_names(bs), funs);
            lemma_globals_ready_concat(
                lift_bindings(bs, sc, funs).1,
                lift(*body, sc + bound_names(bs), funs).1,
            );
        },
        Term::If(c, a, b) => {
            lemma_lift_ready(*c, sc, funs);
            lemma_lift_ready(*a, sc, funs);
            lemma_lift_ready(*b, sc, funs);
            lemma_globals_ready_concat(lift(*c, sc, funs).1, lift(*a, sc, funs).1);
            lemma_globals_ready_concat(
                lift(*c, sc, funs).1 + lift(*a, sc, funs).1,
                lift(*b, sc, funs).1,
            );
        },
        Term::FunDefs(ds, body) => {
            let none: Seq<Name> = Seq::empty();
            let cap = captured_decls(ds, sc, funs, none);
            let funs1 = with_group(funs, ds, cap);
            lemma_group_liftable(ds, *body, sc, funs);
            lemma_lift_ready(*body, sc, funs1);
            lemma_lift_decls_ready(ds, cap, funs1);
            lemma_globals_ready_concat(lift_decls(ds, cap, funs1), lift(*body, sc, funs1).1);
        },
        Term::Call(f, args) => {
            lemma_lift_args_ready(args, sc, funs);
            lemma_vars_ready(extras(funs, f), sc);
            let args1 = lift_args(args, sc, funs).0;
            let all = args1 + vars(extras(funs, f));
            assert forall|i: int| 0 <= i < all.len() implies ready(#[trigger] all[i], sc) by {
                if i < args1.len() {
                    assert(all[i] == args1[i]);
                } else {
                    assert(all[i] == vars(extras(funs, f))[i - args1.len()]);
                }
            }
        },
        Term::InternalTailCall(_, _) => {},
        Term::ExternalCall(_, _, _) => {},
    }
}

pub proof fn lemma_lift_args_ready(args: Seq<Term>, sc: Seq<Name>, funs: FunTable)
    requires
        forall|i: int| 0 <= i < args.len() ==> liftable(#[trigger] args[i], sc, funs),
    ensures
        lift_args(args, sc, funs).0.len() == args.len(),
        forall|i: int|
            0 <= i < args.len() ==> ready(#[trigger] lift_args(args, sc, funs).0[i], sc),
        globals_ready(lift_args(args, sc, funs).1),
    decreases args,
{
    if args.len() > 0 {
        let dl = args.drop_last();
        assert forall|i: int| 0 <= i < dl.len() implies liftable(#[trigger] dl[i], sc, funs) by {
            assert(dl[i] == args[i]);
        }
        lemma_lift_args_ready(dl, sc, funs);
        assert(liftable(args[args.len() - 1], sc, funs));
        lemma_lift_ready(args.last(), sc, funs);
        lemma_globals_ready_concat(lift_args(dl, sc, funs).1, lift(args.last(), sc, funs).1);
    }
}

pub proof fn lemma_lift_bindings_ready(bs: Seq<(Name, Term)>, sc: Seq<Name>, funs: FunTable)
    requires
        forall|i: int|
            0 <= i < bs.len() ==> liftable(
                (#[trigger] bs[i]).1,
                sc + bound_names(bs).take(i),
                funs,
            ),
    ensures
        lift_bindings(bs, sc, funs).0.len() == bs.len(),
        bound_names(lift_bindings(bs, sc, funs).0) == bound_names(bs),
        forall|i: int|
            0 <= i < bs.len() ==> ready(
                (#[trigger] lift_bindings(bs, sc, funs).0[i]).1,
                sc + bound_names(bs).take(i),
            ),
        globals_ready(lift_bindings(bs, sc, funs).1),
    decreases bs,
{
    if bs.len() == 0 {
        assert(bound_names(lift_bindings(bs, sc, funs).0) =~= bound_names(bs));
    } else {
        let dl = bs.drop_last();
        assert forall|i: int| 0 <= i < dl.len() implies liftable(
            (#[trigger] dl[i]).1,
            sc + bound_names(dl).take(i),
            funs,
        ) by {
            assert(dl[i] == bs[i]);
            assert(bound_names(dl).take(i) =~= bound_names(bs).take(i));
        }
        lemma_lift_bindings_ready(dl, sc, funs);
        let n = bs.len() - 1;
        assert(bound_names(bs).take(n) =~= bound_names(dl));
        assert(liftable(bs[n].1, sc + bound_names(bs).take(n), funs));
        lemma_lift_ready(bs.last().1, sc + bound_names(dl), funs);
        lemma_globals_ready_concat(
            lift_bindings(dl, sc, funs).1,
            lift(bs.last().1, sc + bound_names(dl), funs).1,
        );
        let out = lift_bindings(bs, sc, funs).0;
        assert(bound_names(out) =~= bound_names(bs)) by {
            assert forall|j: int| 0 <= j < out.len() implies bound_names(out)[j] == bound_names(
                bs,
            )[j] by {
                if j < n {
                    assert(out[j] == lift_bindings(dl, sc, funs).0[j]);
                    assert(bound_names(lift_bindings(dl, sc, funs).0)[j] == bound_names(dl)[j]);
                }
            }
        }
        assert forall|i: int| 0 <= i < bs.len() implies ready(
            (#[trigger] out[i]).1,
            sc + bound_names(bs).take(i),
        ) by {
            if i < n {
                assert(out[i] == lift_bindings(dl, sc, funs).0[i]);
                assert(bound_names(dl).take(i) =~= bound_names(bs).take(i));
            }
        }
    }
}

pub proof fn lemma_lift_decls_ready(ds: Seq<FunTerm>, cap: Seq<Name>, funs: FunTable)
    requires
        forall|i: int|
            0 <= i < ds.len() ==> liftable((#[trigger] ds[i]).body, ds[i].params + cap, funs),
    ensures
        globals_ready(lift_decls(ds, cap, funs)),
    decreases ds,
{
    if ds.len() > 0 {
        let dl = ds.drop_last();
        let d = ds.last();
        assert forall|i: int| 0 <= i < dl.len() implies liftable(
            (#[trigger] dl[i]).body,
            dl[i].params + cap,
            funs,
        ) by {
            assert(dl[i] == ds[i]);
        }
        lemma_lift_decls_ready(dl, cap, funs);
        assert(liftable(ds[ds.len() - 1].body, ds[ds.len() - 1].params + cap, funs));
        lemma_lift_ready(d.body, d.params + cap, funs);
        let (body, gs) = lift(d.body, d.params + cap, funs);
        let lifted = FunTerm { name: d.name, params: d.params + cap, body };
        assert(globals_ready(gs.push(lifted))) by {
            assert forall|k: int| 0 <= k < gs.push(lifted).len() implies ready(
                (#[trigger] gs.push(lifted)[k]).body,
                gs.push(lifted)[k].params,
            ) by {
                if k < gs.len() {
                    assert(gs.push(lifted)[k] == gs[k]);
                }
            }
        }
        lemma_globals_ready_concat(lift_decls(dl, cap, funs), gs.push(lifted));
    }
}

} // verus!
