//! What holds of renaming: a renamed program is renamed to itself.

use crate::names::{decimal, keys, lemma_index_of};
use crate::scopes::zip_names;
use crate::syntax::{FunTerm, Name, Term};
use crate::uniquify::{args_binders, binders, bindings_binders, decl_names, decls_binders, extend};
use crate::uniquify::{fresh_names, let_scope, rename, Renaming, uniq, uniq_args, uniq_bindings};
use crate::uniquify::{uniq_decls, uniquify_term};
use vstd::prelude::*;

verus! {

/// Whether the substitution `m2` leaves every name alone that `m` gives.
pub open spec fn stable(m: Renaming, m2: Renaming) -> bool {
    forall|x: Name| rename(m2, #[trigger] rename(m, x)) == rename(m, x)
}

/// Where a name gets the fresh name `n`, and `n` gets itself, the second
/// substitution still leaves alone what the first gives.
pub proof fn lemma_stable_push(m: Renaming, m2: Renaming, x: Name, n: Name)
    requires
        stable(m, m2),
    ensures
        stable(m.push((x, n)), m2.push((n, n))),
{
    let m1 = m.push((x, n));
    let m3 = m2.push((n, n));
    assert(keys(m1) =~= keys(m).push(x));
    assert(keys(m3) =~= keys(m2).push(n));
    assert(keys(m1).drop_last() =~= keys(m));
    assert(keys(m3).drop_last() =~= keys(m2));
    assert forall|y: Name| rename(m3, #[trigger] rename(m1, y)) == rename(m1, y) by {
        lemma_index_of(keys(m), y);
        let z = rename(m1, y);
        lemma_index_of(keys(m2), z);
        if y != x {
            assert(z == rename(m, y));
            assert(rename(m2, rename(m, y)) == rename(m, y));
        }
    }
}

pub proof fn lemma_stable_all(m: Renaming, m2: Renaming, xs: Seq<Name>, ns: Seq<Name>)
    requires
        stable(m, m2),
        xs.len() == ns.len(),
    ensures
        stable(m + zip_names(xs, ns), m2 + zip_names(ns, ns)),
    decreases xs.len(),
{
    if xs.len() == 0 {
        assert(m + zip_names(xs, ns) =~= m);
        assert(m2 + zip_names(ns, ns) =~= m2);
    } else {
        let xd = xs.drop_last();
        let nd = ns.drop_last();
        lemma_stable_all(m, m2, xd, nd);
        lemma_stable_push(m + zip_names(xd, nd), m2 + zip_names(nd, nd), xs.last(), ns.last());
        assert(m + zip_names(xs, ns) =~= (m + zip_names(xd, nd)).push((xs.last(), ns.last())));
        assert(m2 + zip_names(ns, ns) =~= (m2 + zip_names(nd, nd)).push((ns.last(), ns.last())));
    }
}

/// A renamed expression binds as many names as the expression, and where
/// the second substitution leaves alone what the first gives, renaming it
/// again from the same counter gives it back.
pub proof fn lemma_uniq_again(t: Term, m: Renaming, m2: Renaming, c: nat)
    requires
        stable(m, m2),
    ensures
        binders(uniq(t, m, c)) == binders(t),
        uniq(uniq(t, m, c), m2, c) == uniq(t, m, c),
    decreases t,
{
    match t {
        Term::Num(_) => {},
        Term::Bool(_) => {},
        Term::Var(x) => {
            assert(rename(m2, rename(m, x)) == rename(m, x));
        },
        Term::Prim(_, args) => {
            lemma_uniq_args_again(args, m, m2, c);
        },
        Term::Let(bs, body) => {
            lemma_uniq_bindings_again(bs, m, m2, c);
            let ub = uniq_bindings(bs, m, c);
            lemma_uniq_again(
                *body,
                let_scope(bs, m, c),
                let_scope(ub, m2, c),
                c + bindings_binders(bs),
            );
        },
        Term::If(cond, a, b) => {
            lemma_uniq_again(*cond, m, m2, c);
            lemma_uniq_again(*a, m, m2, c + binders(*cond));
            lemma_uniq_again(*b, m, m2, c + binders(*cond) + binders(*a));
        },
        Term::FunDefs(ds, body) => {
            let inner = extend(m, decl_names(ds), c);
            let c1 = c + ds.len();
            let ud = uniq_decls(ds, inner, c1, c);
            lemma_decl_names(ds, inner, c1, c);
            let fresh = fresh_names(c, ds.len());
            let inner2 = extend(m2, decl_names(ud), c);
            lemma_stable_all(m, m2, decl_names(ds), fresh);
            assert(inner =~= m + zip_names(decl_names(ds), fresh));
            assert(inner2 =~= m2 + zip_names(fresh, fresh));
            lemma_uniq_decls_again(ds, inner, inner2, c1, c);
            lemma_uniq_again(*body, inner, inner2, c1 + decls_binders(ds));
        },
        Term::Call(f, args) => {
            lemma_uniq_args_again(args, m, m2, c);
            assert(rename(m2, rename(m, f)) == rename(m, f));
        },
        Term::InternalTailCall(f, args) => {
            lemma_uniq_args_again(args, m, m2, c);
            assert(rename(m2, rename(m, f)) == rename(m, f));
        },
        Term::ExternalCall(f, args, _) => {
            lemma_uniq_args_again(args, m, m2, c);
            assert(rename(m2, rename(m, f)) == rename(m, f));
        },
    }
}

pub proof fn lemma_uniq_args_again(args: Seq<Term>, m: Renaming, m2: Renaming, c: nat)
    requires
        stable(m, m2),
    ensures
        uniq_args(args, m, c).len() == args.len(),
        args_binders(uniq_args(args, m, c)) == args_binders(args),
        uniq_args(uniq_args(args, m, c), m2, c) == uniq_args(args, m, c),
    decreases args,
{
    if args.len() > 0 {
        let dl = args.drop_last();
        let u = uniq_args(args, m, c);
        lemma_uniq_args_again(dl, m, m2, c);
        lemma_uniq_again(args.last(), m, m2, c + args_binders(dl));
        assert(u.drop_last() =~= uniq_args(dl, m, c));
    }
}

pub proof fn lemma_uniq_bindings_again(bs: Seq<(Name, Term)>, m: Renaming, m2: Renaming, c: nat)
    requires
        stable(m, m2),
    ensures
        uniq_bindings(bs, m, c).len() == bs.len(),
        bindings_binders(uniq_bindings(bs, m, c)) == bindings_binders(bs),
        uniq_bindings(uniq_bindings(bs, m, c), m2, c) == uniq_bindings(bs, m, c),
        stable(let_scope(bs, m, c), let_scope(uniq_bindings(bs, m, c), m2, c)),
    decreases bs,
{
    if bs.len() > 0 {
        let dl = bs.drop_last();
        let u = uniq_bindings(bs, m, c);
        let ud = uniq_bindings(dl, m, c);
        let cb = c + bindings_binders(dl);
        lemma_uniq_bindings_again(dl, m, m2, c);
        lemma_uniq_again(bs.last().1, let_scope(dl, m, c), let_scope(ud, m2, c), cb + 1);
        assert(u.drop_last() =~= ud);
        lemma_stable_push(
            let_scope(dl, m, c),
            let_scope(ud, m2, c),
            bs.last().0,
            decimal(cb + 1),
        );
    }
}

/// The functions of a renamed group carry the numerals after the counter.
pub proof fn lemma_decl_names(ds: Seq<FunTerm>, m: Renaming, c: nat, base: nat)
    ensures
        uniq_decls(ds, m, c, base).len() == ds.len(),
        decl_names(uniq_decls(ds, m, c, base)) == fresh_names(base, ds.len()),
    decreases ds.len(),
{
    if ds.len() == 0 {
        assert(decl_names(uniq_decls(ds, m, c, base)) =~= fresh_names(base, ds.len()));
    } else {
        let dl = ds.drop_last();
        lemma_decl_names(dl, m, c, base);
        let u = uniq_decls(ds, m, c, base);
        assert forall|i: int| 0 <= i < u.len() implies decl_names(u)[i] == fresh_names(
            base,
            ds.len(),
        )[i] by {
            if i < dl.len() {
                assert(u[i] == uniq_decls(dl, m, c, base)[i]);
                assert(decl_names(uniq_decls(dl, m, c, base))[i] == fresh_names(base, dl.len())[i]);
            }
        }
        assert(decl_names(u) =~= fresh_names(base, ds.len()));
    }
}

pub proof fn lemma_uniq_decls_again(
    ds: Seq<FunTerm>,
    m: Renaming,
    m2: Renaming,
    c: nat,
    base: nat,
)
    requires
        stable(m, m2),
    ensures
        uniq_decls(ds, m, c, base).len() == ds.len(),
        decls_binders(uniq_decls(ds, m, c, base)) == decls_binders(ds),
        uniq_decls(uniq_decls(ds, m, c, base), m2, c, base) == uniq_decls(ds, m, c, base),
    decreases ds,
{
    if ds.len() > 0 {
        let dl = ds.drop_last();
        let d = ds.last();
        let u = uniq_decls(ds, m, c, base);
        let cb = c + decls_binders(dl);
        let n = d.params.len();
        let fresh = fresh_names(cb, n);
        lemma_uniq_decls_again(dl, m, m2, c, base);
        assert(u.drop_last() =~= uniq_decls(dl, m, c, base));
        lemma_stable_all(m, m2, d.params, fresh);
        assert(extend(m, d.params, cb) =~= m + zip_names(d.params, fresh));
        assert(extend(m2, fresh, cb) =~= m2 + zip_names(fresh, fresh));
        lemma_uniq_again(d.body, extend(m, d.params, cb), extend(m2, fresh, cb), cb + n);
        assert(fresh_names(cb, fresh.len()) =~= fresh);
    }
}

/// Renaming is idempotent: a renamed program is renamed to itself.
pub proof fn lemma_uniquify_idempotent(t: Term)
    ensures
        uniquify_term(uniquify_term(t)) == uniquify_term(t),
{
    let none: Renaming = Seq::empty();
    assert forall|x: Name| rename(none, #[trigger] rename(none, x)) == rename(none, x) by {}
    lemma_uniq_again(t, none, none, 0);
}

} // verus!
