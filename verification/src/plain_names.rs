//! The names of a renamed program are numerals, and lifting makes no new
//! names: so no name that a lifted program binds is one that sequentializing
//! makes.

use crate::lambda_lift::{bound_names, captured_decls, extras, FunTable, lift, lift_args};
use crate::lambda_lift::{lift_bindings, lift_decls, vars, with_group};
use crate::lift_scopes::lemma_captured_decls;
use crate::names::{decimal, digit_char, index_of, is_digit, lemma_decimal_digits, lemma_index_of};
use crate::scopes::{binding_names_of, lemma_uniq_args_index, lemma_uniq_bindings_index};
use crate::scopes::lemma_uniq_decls_index;
use crate::seq_sound::{is_temp, lemma_no_temps_concat, no_temps, plain};
use crate::syntax::{FunTerm, Name, Term};
use crate::uniquify::{args_binders, binders, bindings_binders, decl_names, decls_binders, extend};
use crate::uniquify::{fresh_names, let_scope, rename, Renaming, uniq, uniq_args, uniq_bindings};
use crate::uniquify::uniq_decls;
use vstd::prelude::*;

verus! {

/// A numeral is no name that sequentializing makes.
pub proof fn lemma_numeral_plain(n: nat)
    ensures
        !is_temp(decimal(n)),
{
    lemma_decimal_digits(n);
    let c = decimal(n)[0];
    assert(is_digit(c));
    let d = choose|d: int| 0 <= d < 10 && c == digit_char(d);
    assert(c != '#');
}

/// Fresh names are no names that sequentializing makes.
pub proof fn lemma_fresh_plain(c: nat, n: nat)
    ensures
        no_temps(fresh_names(c, n)),
{
    assert forall|k: int| 0 <= k < fresh_names(c, n).len() implies !is_temp(
        #[trigger] fresh_names(c, n)[k],
    ) by {
        lemma_numeral_plain((c + k + 1) as nat);
    }
}

/// A renamed expression binds numerals only.
pub proof fn lemma_uniq_plain(t: Term, m: Renaming, c: nat)
    ensures
        plain(uniq(t, m, c)),
    decreases t,
{
    match t {
        Term::Prim(p, args) => {
            lemma_uniq_args_plain(args, m, c);
            let us = uniq_args(args, m, c);
            assert(uniq(t, m, c) == Term::Prim(p, us));
            assert forall|i: int| 0 <= i < us.len() implies plain(#[trigger] us[i]) by {}
        },
        Term::Let(bs, body) => {
            lemma_uniq_bindings_index(bs, m, c);
            let ub = uniq_bindings(bs, m, c);
            assert forall|i: int| 0 <= i < ub.len() implies !is_temp((#[trigger] ub[i]).0)
                && plain(ub[i].1) by {
                assert(bound_names(ub)[i] == binding_names_of(bs, c)[i]);
                lemma_numeral_plain((c + bindings_binders(bs.take(i)) + 1) as nat);
                lemma_uniq_plain(
                    bs[i].1,
                    let_scope(bs.take(i), m, c),
                    c + bindings_binders(bs.take(i)) + 1,
                );
            }
            lemma_uniq_plain(*body, let_scope(bs, m, c), c + bindings_binders(bs));
            assert(plain(uniq(t, m, c)));
        },
        Term::If(cond, a, b) => {
            lemma_uniq_plain(*cond, m, c);
            lemma_uniq_plain(*a, m, c + binders(*cond));
            lemma_uniq_plain(*b, m, c + binders(*cond) + binders(*a));
        },
        Term::FunDefs(ds, body) => {
            let inner = extend(m, decl_names(ds), c);
            let c1 = c + ds.len();
            lemma_uniq_decls_index(ds, inner, c1, c);
            let ud = uniq_decls(ds, inner, c1, c);
            assert forall|i: int| 0 <= i < ud.len() implies plain((#[trigger] ud[i]).body)
                && no_temps(ud[i].params) by {
                let cb = c1 + decls_binders(ds.take(i));
                lemma_fresh_plain(cb, ds[i].params.len());
                lemma_uniq_plain(
                    ds[i].body,
                    extend(inner, ds[i].params, cb),
                    cb + ds[i].params.len(),
                );
            }
            lemma_uniq_plain(*body, inner, c1 + decls_binders(ds));
            assert(plain(uniq(t, m, c)));
        },
        Term::Call(f, args) => {
            lemma_uniq_args_plain(args, m, c);
            let us = uniq_args(args, m, c);
            assert(uniq(t, m, c) == Term::Call(rename(m, f), us));
            assert forall|i: int| 0 <= i < us.len() implies plain(#[trigger] us[i]) by {}
        },
        Term::InternalTailCall(f, args) => {
            lemma_uniq_args_plain(args, m, c);
            let us = uniq_args(args, m, c);
            assert(uniq(t, m, c) == Term::InternalTailCall(rename(m, f), us));
            assert forall|i: int| 0 <= i < us.len() implies plain(#[trigger] us[i]) by {}
        },
        Term::ExternalCall(f, args, is_tail) => {
            lemma_uniq_args_plain(args, m, c);
            let us = uniq_args(args, m, c);
            assert(uniq(t, m, c) == Term::ExternalCall(rename(m, f), us, is_tail));
            assert forall|i: int| 0 <= i < us.len() implies plain(#[trigger] us[i]) by {}
        },
        _ => {},
    }
}

pub proof fn lemma_uniq_args_plain(args: Seq<Term>, m: Renaming, c: nat)
    ensures
        forall|i: int|
            0 <= i < uniq_args(args, m, c).len() ==> plain(#[trigger] uniq_args(args, m, c)[i]),
    decreases args,
{
    lemma_uniq_args_index(args, m, c);
    assert forall|i: int| 0 <= i < uniq_args(args, m, c).len() implies plain(
        #[trigger] uniq_args(args, m, c)[i],
    ) by {
        lemma_uniq_plain(args[i], m, c + args_binders(args.take(i)));
    }
}

/// Lifting the arguments of a call gives as many expressions.
pub proof fn lemma_lift_args_len(args: Seq<Term>, sc: Seq<Name>, funs: FunTable)
    ensures
        lift_args(args, sc, funs).0.len() == args.len(),
    decreases args.len(),
{
    if args.len() > 0 {
        lemma_lift_args_len(args.drop_last(), sc, funs);
    }
}

/// Lifting the bindings of a `let` gives as many bindings.
pub proof fn lemma_lift_bindings_len(bs: Seq<(Name, Term)>, sc: Seq<Name>, funs: FunTable)
    ensures
        lift_bindings(bs, sc, funs).0.len() == bs.len(),
    decreases bs.len(),
{
    if bs.len() > 0 {
        lemma_lift_bindings_len(bs.drop_last(), sc, funs);
    }
}

/// Whether the functions that were lifted bind no name that
/// sequentializing makes.
pub open spec fn globals_plain(gs: Seq<FunTerm>) -> bool {
    forall|k: int| 0 <= k < gs.len() ==> plain((#[trigger] gs[k]).body) && no_temps(gs[k].params)
}

pub proof fn lemma_globals_plain_concat(a: Seq<FunTerm>, b: Seq<FunTerm>)
    requires
        globals_plain(a),
        globals_plain(b),
    ensures
        globals_plain(a + b),
{
    assert forall|k: int| 0 <= k < (a + b).len() implies plain((#[trigger] (a + b)[k]).body)
        && no_temps((a + b)[k].params) by {
        if k < a.len() {
            assert((a + b)[k] == a[k]);
        } else {
            assert((a + b)[k] == b[k - a.len()]);
        }
    }
}

/// Lifting makes no new names: what it leaves of an expression that binds
/// plain names binds plain names, and so do the functions that it lifts,
/// where the names in scope are plain.
pub proof fn lemma_lift_plain(t: Term, sc: Seq<Name>, funs: FunTable)
    requires
        plain(t),
        no_temps(sc),
    ensures
        plain(lift(t, sc, funs).0),
        globals_plain(lift(t, sc, funs).1),
    decreases t,
{
    match t {
        Term::Prim(_, args) => {
            lemma_lift_args_plain(args, sc, funs);
        },
        Term::Let(bs, body) => {
            lemma_lift_bindings_plain(bs, sc, funs);
            assert(no_temps(bound_names(bs))) by {
                assert forall|k: int| 0 <= k < bound_names(bs).len() implies !is_temp(
                    #[trigger] bound_names(bs)[k],
                ) by {
                    assert(!is_temp(bs[k].0));
                }
            }
            lemma_no_temps_concat(sc, bound_names(bs));
            lemma_lift_plain(*body, sc + bound_names(bs), funs);
            lemma_globals_plain_concat(
                lift_bindings(bs, sc, funs).1,
                lift(*body, sc + bound_names(bs), funs).1,
            );
        },
        Term::If(c, a, b) => {
            lemma_lift_plain(*c, sc, funs);
            lemma_lift_plain(*a, sc, funs);
            lemma_lift_plain(*b, sc, funs);
            lemma_globals_plain_concat(lift(*c, sc, funs).1, lift(*a, sc, funs).1);
            lemma_globals_plain_concat(
                lift(*c, sc, funs).1 + lift(*a, sc, funs).1,
                lift(*b, sc, funs).1,
            );
        },
        Term::FunDefs(ds, body) => {
            let none: Seq<Name> = Seq::empty();
            let cap = captured_decls(ds, sc, funs, none);
            let funs1 = with_group(funs, ds, cap);
            assert(no_temps(cap)) by {
                assert forall|k: int| 0 <= k < cap.len() implies !is_temp(#[trigger] cap[k]) by {
                    lemma_index_of(cap, cap[k]);
                    assert(cap.contains(cap[k]));
                    lemma_captured_decls(ds, sc, funs, none, cap[k]);
                    lemma_index_of(sc, cap[k]);
                    assert(!is_temp(sc[index_of(sc, cap[k])]));
                }
            }
            lemma_lift_decls_plain(ds, cap, funs1);
            lemma_lift_plain(*body, sc, funs1);
            lemma_globals_plain_concat(lift_decls(ds, cap, funs1), lift(*body, sc, funs1).1);
        },
        Term::Call(f, args) => {
            lemma_lift_args_plain(args, sc, funs);
            let args1 = lift_args(args, sc, funs).0;
            let all = args1 + vars(extras(funs, f));
            assert forall|i: int| 0 <= i < all.len() implies plain(#[trigger] all[i]) by {
                if i < args1.len() {
                    assert(all[i] == args1[i]);
                }
            }
        },
        Term::InternalTailCall(_, args) => {
            lemma_lift_args_plain(args, sc, funs);
        },
        Term::ExternalCall(_, args, _) => {
            lemma_lift_args_plain(args, sc, funs);
        },
        _ => {},
    }
}

pub proof fn lemma_lift_args_plain(args: Seq<Term>, sc: Seq<Name>, funs: FunTable)
    requires
        forall|i: int| 0 <= i < args.len() ==> plain(#[trigger] args[i]),
        no_temps(sc),
    ensures
        forall|i: int|
            0 <= i < lift_args(args, sc, funs).0.len() ==> plain(
                #[trigger] lift_args(args, sc, funs).0[i],
            ),
        globals_plain(lift_args(args, sc, funs).1),
    decreases args,
{
    if args.len() > 0 {
        let dl = args.drop_last();
        assert forall|i: int| 0 <= i < dl.len() implies plain(#[trigger] dl[i]) by {
            assert(dl[i] == args[i]);
        }
        lemma_lift_args_plain(dl, sc, funs);
        assert(plain(args[args.len() - 1]));
        lemma_lift_plain(args.last(), sc, funs);
        lemma_globals_plain_concat(lift_args(dl, sc, funs).1, lift(args.last(), sc, funs).1);
        lemma_lift_args_len(dl, sc, funs);
        let out = lift_args(args, sc, funs).0;
        assert forall|i: int| 0 <= i < out.len() implies plain(#[trigger] out[i]) by {
            if i < dl.len() {
                assert(out[i] == lift_args(dl, sc, funs).0[i]);
            }
        }
    }
}

pub proof fn lemma_lift_bindings_plain(bs: Seq<(Name, Term)>, sc: Seq<Name>, funs: FunTable)
    requires
        forall|i: int| 0 <= i < bs.len() ==> !is_temp((#[trigger] bs[i]).0) && plain(bs[i].1),
        no_temps(sc),
    ensures
        forall|i: int|
            0 <= i < lift_bindings(bs, sc, funs).0.len() ==> !is_temp(
                (#[trigger] lift_bindings(bs, sc, funs).0[i]).0,
            ) && plain(lift_bindings(bs, sc, funs).0[i].1),
        globals_plain(lift_bindings(bs, sc, funs).1),
    decreases bs,
{
    if bs.len() > 0 {
        let dl = bs.drop_last();
        assert forall|i: int| 0 <= i < dl.len() implies !is_temp((#[trigger] dl[i]).0) && plain(
            dl[i].1,
        ) by {
            assert(dl[i] == bs[i]);
        }
        lemma_lift_bindings_plain(dl, sc, funs);
        assert(!is_temp(bs[bs.len() - 1].0) && plain(bs[bs.len() - 1].1));
        assert(no_temps(bound_names(dl))) by {
            assert forall|k: int| 0 <= k < bound_names(dl).len() implies !is_temp(
                #[trigger] bound_names(dl)[k],
            ) by {
                assert(!is_temp(dl[k].0));
            }
        }
        lemma_no_temps_concat(sc, bound_names(dl));
        lemma_lift_plain(bs.last().1, sc + bound_names(dl), funs);
        lemma_globals_plain_concat(
            lift_bindings(dl, sc, funs).1,
            lift(bs.last().1, sc + bound_names(dl), funs).1,
        );
        lemma_lift_bindings_len(dl, sc, funs);
        let out = lift_bindings(bs, sc, funs).0;
        assert forall|i: int| 0 <= i < out.len() implies !is_temp((#[trigger] out[i]).0) && plain(
            out[i].1,
        ) by {
            if i < dl.len() {
                assert(out[i] == lift_bindings(dl, sc, funs).0[i]);
            }
        }
    }
}

pub proof fn lemma_lift_decls_plain(ds: Seq<FunTerm>, cap: Seq<Name>, funs: FunTable)
    requires
        forall|i: int|
            0 <= i < ds.len() ==> plain((#[trigger] ds[i]).body) && no_temps(ds[i].params),
        no_temps(cap),
    ensures
        globals_plain(lift_decls(ds, cap, funs)),
    decreases ds,
{
    if ds.len() > 0 {
        let dl = ds.drop_last();
        let d = ds.last();
        assert forall|i: int| 0 <= i < dl.len() implies plain((#[trigger] dl[i]).body) && no_temps(
            dl[i].params,
        ) by {
            assert(dl[i] == ds[i]);
        }
        lemma_lift_decls_plain(dl, cap, funs);
        assert(plain(ds[ds.len() - 1].body) && no_temps(ds[ds.len() - 1].params));
        lemma_no_temps_concat(d.params, cap);
        lemma_lift_plain(d.body, d.params + cap, funs);
        let (body, gs) = lift(d.body, d.params + cap, funs);
        let lifted = FunTerm { name: d.name, params: d.params + cap, body };
        assert(globals_plain(gs.push(lifted))) by {
            assert forall|k: int| 0 <= k < gs.push(lifted).len() implies plain(
                (#[trigger] gs.push(lifted)[k]).body,
            ) && no_temps(gs.push(lifted)[k].params) by {
                if k < gs.len() {
                    assert(gs.push(lifted)[k] == gs[k]);
                }
            }
        }
        lemma_globals_plain_concat(lift_decls(dl, cap, funs), gs.push(lifted));
    }
}

} // verus!
