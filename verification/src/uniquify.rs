//! Alpha-renaming: every binding gets a name of its own, the decimal numeral
//! of a counter that only grows.

use crate::names::{decimal, decimal_string, find_last, index_of, keys, table_of};
use crate::syntax::{binding_terms, boxed_terms, decl_terms, Exp, fun_term, FunDecl, FunTerm, Name};
use crate::syntax::{names_of, Term, terms};
use vstd::prelude::*;

verus! {

/// A substitution of names: the newest entry for a name is the one in force.
pub type Renaming = Seq<(Name, Name)>;

/// The substitution that a vector of pairs holds.
pub open spec fn renaming_of(v: Seq<(String, String)>) -> Renaming {
    Seq::new(v.len(), |i: int| (v[i].0@, v[i].1@))
}

/// The name that stands for `x`: the newest entry for it, or `x` itself.
pub open spec fn rename(m: Renaming, x: Name) -> Name {
    let i = index_of(keys(m), x);
    if i >= 0 {
        m[i].1
    } else {
        x
    }
}

/// The number of names that an expression binds.
pub open spec fn binders(t: Term) -> nat
    decreases t,
{
    match t {
        Term::Num(_) | Term::Bool(_) | Term::Var(_) => 0,
        Term::Prim(_, args) => args_binders(args),
        Term::Let(bs, body) => bindings_binders(bs) + binders(*body),
        Term::If(c, a, b) => binders(*c) + binders(*a) + binders(*b),
        Term::FunDefs(ds, body) => ds.len() + decls_binders(ds) + binders(*body),
        Term::Call(_, args) => args_binders(args),
        Term::InternalTailCall(_, args) => args_binders(args),
        Term::ExternalCall(_, args, _) => args_binders(args),
    }
}

pub open spec fn args_binders(args: Seq<Term>) -> nat
    decreases args,
{
    if args.len() == 0 {
        0
    } else {
        args_binders(args.drop_last()) + binders(args.last())
    }
}

pub open spec fn bindings_binders(bs: Seq<(Name, Term)>) -> nat
    decreases bs,
{
    if bs.len() == 0 {
        0
    } else {
        bindings_binders(bs.drop_last()) + 1 + binders(bs.last().1)
    }
}

pub open spec fn decls_binders(ds: Seq<FunTerm>) -> nat
    decreases ds,
{
    if ds.len() == 0 {
        0
    } else {
        decls_binders(ds.drop_last()) + ds.last().params.len() + binders(ds.last().body)
    }
}

/// The `n` numerals that follow `c`.
pub open spec fn fresh_names(c: nat, n: nat) -> Seq<Name> {
    Seq::new(n, |j: int| decimal((c + j + 1) as nat))
}

/// A substitution extended by fresh names for `xs`, numbered from `c + 1`.
pub open spec fn extend(m: Renaming, xs: Seq<Name>, c: nat) -> Renaming {
    m + Seq::new(xs.len(), |j: int| (xs[j], decimal((c + j + 1) as nat)))
}

/// The names that a group declares.
pub open spec fn decl_names(ds: Seq<FunTerm>) -> Seq<Name> {
    Seq::new(ds.len(), |i: int| ds[i].name)
}

/// The substitution in force after the bindings of a `let`.
pub open spec fn let_scope(bs: Seq<(Name, Term)>, m: Renaming, c: nat) -> Renaming
    decreases bs.len(),
{
    if bs.len() == 0 {
        m
    } else {
        let_scope(bs.drop_last(), m, c).push(
            (bs.last().0, decimal(c + bindings_binders(bs.drop_last()) + 1)),
        )
    }
}

/// The expression with every binding renamed to a fresh numeral, numbered
/// from `c + 1` in the order in which the bindings are met, and every use
/// renamed by the substitution in force where it stands.
pub open spec fn uniq(t: Term, m: Renaming, c: nat) -> Term
    decreases t,
{
    match t {
        Term::Num(n) => Term::Num(n),
        Term::Bool(b) => Term::Bool(b),
        Term::Var(x) => Term::Var(rename(m, x)),
        Term::Prim(p, args) => Term::Prim(p, uniq_args(args, m, c)),
        Term::Let(bs, body) => Term::Let(
            uniq_bindings(bs, m, c),
            Box::new(uniq(*body, let_scope(bs, m, c), c + bindings_binders(bs))),
        ),
        Term::If(cond, a, b) => Term::If(
            Box::new(uniq(*cond, m, c)),
            Box::new(uniq(*a, m, c + binders(*cond))),
            Box::new(uniq(*b, m, c + binders(*cond) + binders(*a))),
        ),
        Term::FunDefs(ds, body) => {
            let inner = extend(m, decl_names(ds), c);
            Term::FunDefs(
                uniq_decls(ds, inner, c + ds.len(), c),
                Box::new(uniq(*body, inner, c + ds.len() + decls_binders(ds))),
            )
        },
        Term::Call(f, args) => Term::Call(rename(m, f), uniq_args(args, m, c)),
        Term::InternalTailCall(f, args) => Term::InternalTailCall(
            rename(m, f),
            uniq_args(args, m, c),
        ),
        Term::ExternalCall(f, args, is_tail) => Term::ExternalCall(
            rename(m, f),
            uniq_args(args, m, c),
            is_tail,
        ),
    }
}

pub open spec fn uniq_args(args: Seq<Term>, m: Renaming, c: nat) -> Seq<Term>
    decreases args,
{
    if args.len() == 0 {
        Seq::empty()
    } else {
        uniq_args(args.drop_last(), m, c).push(
            uniq(args.last(), m, c + args_binders(args.drop_last())),
        )
    }
}

/// The bindings of a `let`: each gets the numeral after the counter, its value
/// is renamed under the bindings before it.
pub open spec fn uniq_bindings(bs: Seq<(Name, Term)>, m: Renaming, c: nat) -> Seq<(Name, Term)>
    decreases bs,
{
    if bs.len() == 0 {
        Seq::empty()
    } else {
        let before = bs.drop_last();
        let cb = c + bindings_binders(before);
        uniq_bindings(before, m, c).push(
            (decimal(cb + 1), uniq(bs.last().1, let_scope(before, m, c), cb + 1)),
        )
    }
}

/// The declarations of a group, under the substitution `m` that already
/// holds the group's own names, which are the numerals after `base`: each
/// gets its fresh name and fresh parameters, and its body is renamed under
/// them.
pub open spec fn uniq_decls(ds: Seq<FunTerm>, m: Renaming, c: nat, base: nat) -> Seq<FunTerm>
    decreases ds,
{
    if ds.len() == 0 {
        Seq::empty()
    } else {
        let d = ds.last();
        let cb = c + decls_binders(ds.drop_last());
        uniq_decls(ds.drop_last(), m, c, base).push(
            FunTerm {
                name: decimal(base + ds.len()),
                params: fresh_names(cb, d.params.len()),
                body: uniq(d.body, extend(m, d.params, cb), cb + d.params.len()),
            },
        )
    }
}

/// The renaming of a whole program: no name is in scope and the counter
/// starts at zero.
pub open spec fn uniquify_term(t: Term) -> Term {
    uniq(t, Seq::empty(), 0)
}

pub proof fn lemma_args_binders_take(ts: Seq<Term>, n: int)
    requires
        0 <= n <= ts.len(),
    ensures
        args_binders(ts.take(n)) <= args_binders(ts),
    decreases ts.len(),
{
    if n < ts.len() {
        lemma_args_binders_take(ts.drop_last(), n);
        assert(ts.drop_last().take(n) =~= ts.take(n));
    } else {
        assert(ts.take(n) =~= ts);
    }
}

pub proof fn lemma_bindings_binders_take(bs: Seq<(Name, Term)>, n: int)
    requires
        0 <= n <= bs.len(),
    ensures
        bindings_binders(bs.take(n)) <= bindings_binders(bs),
    decreases bs.len(),
{
    if n < bs.len() {
        lemma_bindings_binders_take(bs.drop_last(), n);
        assert(bs.drop_last().take(n) =~= bs.take(n));
    } else {
        assert(bs.take(n) =~= bs);
    }
}

pub proof fn lemma_decls_binders_take(ds: Seq<FunTerm>, n: int)
    requires
        0 <= n <= ds.len(),
    ensures
        decls_binders(ds.take(n)) <= decls_binders(ds),
    decreases ds.len(),
{
    if n < ds.len() {
        lemma_decls_binders_take(ds.drop_last(), n);
        assert(ds.drop_last().take(n) =~= ds.take(n));
    } else {
        assert(ds.take(n) =~= ds);
    }
}

/// The name that stands for `x` under `mapping`.
pub fn renamed(mapping: &Vec<(String, String)>, x: &String) -> (r: String)
    ensures
        r@ == rename(renaming_of(mapping@), x@),
{
    assert(keys(renaming_of(mapping@)) =~= keys(table_of(mapping@)));
    match find_last(mapping, x) {
        Some(i) => mapping[i].1.clone(),
        None => x.clone(),
    }
}

/// Adds a fresh name for `x` to the substitution.
pub fn bind_fresh(mapping: &mut Vec<(String, String)>, x: &String, counter: &mut u32) -> (fresh:
    String)
    requires
        *old(counter) < u32::MAX,
    ensures
        *final(counter) == *old(counter) + 1,
        fresh@ == decimal((*old(counter) + 1) as nat),
        final(mapping)@.len() == old(mapping)@.len() + 1,
        final(mapping)@.take(old(mapping)@.len() as int) == old(mapping)@,
        renaming_of(final(mapping)@) == renaming_of(old(mapping)@).push((x@, fresh@)),
{
    *counter = *counter + 1;
    let fresh = decimal_string(*counter as u64);
    mapping.push((x.clone(), fresh.clone()));
    assert(renaming_of(mapping@) =~= renaming_of(old(mapping)@).push((x@, fresh@)));
    assert(mapping@.take(old(mapping)@.len() as int) =~= old(mapping)@);
    fresh
}

/// Takes the newest entries off the substitution until `len` are left.
pub fn restore(mapping: &mut Vec<(String, String)>, len: usize)
    requires
        len <= old(mapping).len(),
    ensures
        final(mapping)@ == old(mapping)@.take(len as int),
        renaming_of(final(mapping)@) == renaming_of(old(mapping)@).take(len as int),
{
    mapping.truncate(len);
    assert(mapping@ =~= old(mapping)@.take(len as int));
    assert(renaming_of(mapping@) =~= renaming_of(old(mapping)@).take(len as int));
}

/// Adds fresh names for each of `xs`, and returns them.
pub fn bind_all(mapping: &mut Vec<(String, String)>, xs: &Vec<String>, counter: &mut u32) -> (fresh:
    Vec<String>)
    requires
        *old(counter) + xs.len() <= u32::MAX,
    ensures
        *final(counter) == *old(counter) + xs.len(),
        names_of(fresh@) == fresh_names(*old(counter) as nat, xs.len() as nat),
        final(mapping)@.len() == old(mapping)@.len() + xs.len(),
        final(mapping)@.take(old(mapping)@.len() as int) == old(mapping)@,
        renaming_of(final(mapping)@) == extend(
            renaming_of(old(mapping)@),
            names_of(xs@),
            *old(counter) as nat,
        ),
{
    let mut fresh: Vec<String> = Vec::new();
    let ghost start = *counter as nat;
    let ghost m = renaming_of(mapping@);
    let ghost names = names_of(xs@);
    let mut j: usize = 0;
    assert(renaming_of(mapping@) =~= extend(m, names.take(0), start));
    assert(names_of(fresh@) =~= fresh_names(start, 0));
    assert(mapping@.take(old(mapping)@.len() as int) =~= old(mapping)@);
    while j < xs.len()
        invariant
            j <= xs.len(),
            mapping@.take(old(mapping)@.len() as int) == old(mapping)@,
            names == names_of(xs@),
            start + xs.len() <= u32::MAX,
            *counter == start + j,
            mapping@.len() == old(mapping)@.len() + j,
            names_of(fresh@) == fresh_names(start, j as nat),
            renaming_of(mapping@) == extend(m, names.take(j as int), start),
        decreases xs.len() - j,
    {
        let ghost before = names_of(fresh@);
        let ghost held = mapping@;
        let name = bind_fresh(mapping, &xs[j], counter);
        fresh.push(name);
        proof {
            assert(mapping@.take(old(mapping)@.len() as int) =~= held.take(
                old(mapping)@.len() as int,
            ));
            assert(names_of(fresh@) =~= before.push(name@));
            assert(names_of(fresh@) =~= fresh_names(start, (j + 1) as nat));
            assert(renaming_of(mapping@) =~= extend(m, names.take(j + 1), start));
        }
        j += 1;
    }
    assert(names.take(xs.len() as int) =~= names);
    fresh
}

/// The names that the declarations of a group carry.
pub fn declared_names<Span>(decls: &Vec<FunDecl<Exp<Span>, Span>>) -> (r: Vec<String>)
    ensures
        names_of(r@) == decl_names(decl_terms(*decls)),
{
    let mut out: Vec<String> = Vec::new();
    let mut i: usize = 0;
    while i < decls.len()
        invariant
            i <= decls.len(),
            out.len() == i,
            forall|j: int| 0 <= j < i ==> out[j]@ == decls[j].name@,
        decreases decls.len() - i,
    {
        out.push(decls[i].name.clone());
        i += 1;
    }
    assert(names_of(out@) =~= decl_names(decl_terms(*decls)));
    out
}

/// The operands of a primitive, renamed.
pub fn uniquify_boxed<Span>(
    es: &Vec<Box<Exp<Span>>>,
    mapping: &mut Vec<(String, String)>,
    counter: &mut u32,
) -> (r: Vec<Box<Exp<()>>>)
    requires
        *old(counter) + args_binders(boxed_terms(*es)) <= u32::MAX,
    ensures
        *final(counter) == *old(counter) + args_binders(boxed_terms(*es)),
        final(mapping)@ == old(mapping)@,
        boxed_terms(r) == uniq_args(
            boxed_terms(*es),
            renaming_of(old(mapping)@),
            *old(counter) as nat,
        ),
    decreases es,
{
    let mut out: Vec<Box<Exp<()>>> = Vec::new();
    let ghost ts = boxed_terms(*es);
    let ghost start = *counter as nat;
    let ghost m = renaming_of(mapping@);
    let mut i: usize = 0;
    assert(ts.take(0).len() == 0);
    assert(boxed_terms(out) =~= Seq::<Term>::empty());
    while i < es.len()
        invariant
            i <= es.len(),
            ts == boxed_terms(*es),
            m == renaming_of(mapping@),
            mapping@ == old(mapping)@,
            start + args_binders(ts) <= u32::MAX,
            *counter == start + args_binders(ts.take(i as int)),
            boxed_terms(out) == uniq_args(ts.take(i as int), m, start),
        decreases es.len() - i,
    {
        proof {
            assert(ts.take(i + 1).drop_last() =~= ts.take(i as int));
            assert(ts.take(i + 1).last() == es[i as int].term());
            lemma_args_binders_take(ts, i + 1);
        }
        let ghost before = boxed_terms(out);
        let e = uniquify(&*es[i], mapping, counter);
        out.push(Box::new(e));
        assert(boxed_terms(out) =~= before.push(e.term()));
        i += 1;
    }
    assert(ts.take(es.len() as int) =~= ts);
    out
}

/// The arguments of a call, renamed.
pub fn uniquify_args<Span>(
    es: &Vec<Exp<Span>>,
    mapping: &mut Vec<(String, String)>,
    counter: &mut u32,
) -> (r: Vec<Exp<()>>)
    requires
        *old(counter) + args_binders(terms(*es)) <= u32::MAX,
    ensures
        *final(counter) == *old(counter) + args_binders(terms(*es)),
        final(mapping)@ == old(mapping)@,
        terms(r) == uniq_args(terms(*es), renaming_of(old(mapping)@), *old(counter) as nat),
    decreases es,
{
    let mut out: Vec<Exp<()>> = Vec::new();
    let ghost ts = terms(*es);
    let ghost start = *counter as nat;
    let ghost m = renaming_of(mapping@);
    let mut i: usize = 0;
    assert(ts.take(0).len() == 0);
    assert(terms(out) =~= Seq::<Term>::empty());
    while i < es.len()
        invariant
            i <= es.len(),
            ts == terms(*es),
            m == renaming_of(mapping@),
            mapping@ == old(mapping)@,
            start + args_binders(ts) <= u32::MAX,
            *counter == start + args_binders(ts.take(i as int)),
            terms(out) == uniq_args(ts.take(i as int), m, start),
        decreases es.len() - i,
    {
        proof {
            assert(ts.take(i + 1).drop_last() =~= ts.take(i as int));
            assert(ts.take(i + 1).last() == es[i as int].term());
            lemma_args_binders_take(ts, i + 1);
        }
        let ghost before = terms(out);
        let e = uniquify(&es[i], mapping, counter);
        out.push(e);
        assert(terms(out) =~= before.push(e.term()));
        i += 1;
    }
    assert(ts.take(es.len() as int) =~= ts);
    out
}

/// The bindings of a `let`, renamed; the substitution is left extended by
/// them, for the body.
pub fn uniquify_bindings<Span>(
    bs: &Vec<(String, Exp<Span>)>,
    mapping: &mut Vec<(String, String)>,
    counter: &mut u32,
) -> (r: Vec<(String, Exp<()>)>)
    requires
        *old(counter) + bindings_binders(binding_terms(*bs)) <= u32::MAX,
    ensures
        *final(counter) == *old(counter) + bindings_binders(binding_terms(*bs)),
        final(mapping)@.len() == old(mapping)@.len() + bs.len(),
        final(mapping)@.take(old(mapping)@.len() as int) == old(mapping)@,
        renaming_of(final(mapping)@) == let_scope(
            binding_terms(*bs),
            renaming_of(old(mapping)@),
            *old(counter) as nat,
        ),
        binding_terms(r) == uniq_bindings(
            binding_terms(*bs),
            renaming_of(old(mapping)@),
            *old(counter) as nat,
        ),
    decreases bs,
{
    let mut out: Vec<(String, Exp<()>)> = Vec::new();
    let ghost ts = binding_terms(*bs);
    let ghost start = *counter as nat;
    let ghost m = renaming_of(mapping@);
    let mut i: usize = 0;
    assert(ts.take(0).len() == 0);
    assert(binding_terms(out) =~= Seq::<(Name, Term)>::empty());
    assert(mapping@.take(old(mapping)@.len() as int) =~= old(mapping)@);
    while i < bs.len()
        invariant
            i <= bs.len(),
            ts == binding_terms(*bs),
            m == renaming_of(old(mapping)@),
            mapping@.len() == old(mapping)@.len() + i,
            mapping@.take(old(mapping)@.len() as int) == old(mapping)@,
            start + bindings_binders(ts) <= u32::MAX,
            *counter == start + bindings_binders(ts.take(i as int)),
            renaming_of(mapping@) == let_scope(ts.take(i as int), m, start),
            binding_terms(out) == uniq_bindings(ts.take(i as int), m, start),
        decreases bs.len() - i,
    {
        proof {
            assert(ts.take(i + 1).drop_last() =~= ts.take(i as int));
            assert(ts.take(i + 1).last() == (bs[i as int].0@, bs[i as int].1.term()));
            lemma_bindings_binders_take(ts, i + 1);
        }
        let ghost before = binding_terms(out);
        let ghost held = mapping@;
        *counter = *counter + 1;
        let fresh = decimal_string(*counter as u64);
        let value = uniquify(&bs[i].1, mapping, counter);
        mapping.push((bs[i].0.clone(), fresh.clone()));
        out.push((fresh, value));
        proof {
            assert(binding_terms(out) =~= before.push((fresh@, value.term())));
            assert(renaming_of(mapping@) =~= renaming_of(held).push((bs[i as int].0@, fresh@)));
            assert(mapping@.take(old(mapping)@.len() as int) =~= held.take(
                old(mapping)@.len() as int,
            ));
        }
        i += 1;
    }
    assert(ts.take(bs.len() as int) =~= ts);
    out
}

/// The declarations of a group, renamed under a substitution that already
/// holds the group's own names; `fresh` holds the names that stand for them.
pub fn uniquify_decls<Span>(
    ds: &Vec<FunDecl<Exp<Span>, Span>>,
    fresh: &Vec<String>,
    base: Ghost<nat>,
    mapping: &mut Vec<(String, String)>,
    counter: &mut u32,
) -> (r: Vec<FunDecl<Exp<()>, ()>>)
    requires
        *old(counter) + decls_binders(decl_terms(*ds)) <= u32::MAX,
        names_of(fresh@) == fresh_names(base@, ds.len() as nat),
    ensures
        *final(counter) == *old(counter) + decls_binders(decl_terms(*ds)),
        final(mapping)@ == old(mapping)@,
        decl_terms(r) == uniq_decls(
            decl_terms(*ds),
            renaming_of(old(mapping)@),
            *old(counter) as nat,
            base@,
        ),
    decreases ds,
{
    let mut out: Vec<FunDecl<Exp<()>, ()>> = Vec::new();
    let ghost ts = decl_terms(*ds);
    let ghost start = *counter as nat;
    let ghost m = renaming_of(mapping@);
    let mut i: usize = 0;
    assert(ts.take(0).len() == 0);
    assert(decl_terms(out) =~= Seq::<FunTerm>::empty());
    while i < ds.len()
        invariant
            i <= ds.len(),
            ts == decl_terms(*ds),
            m == renaming_of(mapping@),
            mapping@ == old(mapping)@,
            start + decls_binders(ts) <= u32::MAX,
            *counter == start + decls_binders(ts.take(i as int)),
            names_of(fresh@) == fresh_names(base@, ds.len() as nat),
            decl_terms(out) == uniq_decls(ts.take(i as int), m, start, base@),
        decreases ds.len() - i,
    {
        proof {
            assert(ts.take(i + 1).drop_last() =~= ts.take(i as int));
            assert(ts.take(i + 1).last() == fun_term(ds[i as int]));
            lemma_decls_binders_take(ts, i + 1);
        }
        let ghost before = decl_terms(out);
        let len = mapping.len();
        assert(names_of(fresh@).len() == fresh.len());
        assert(names_of(fresh@)[i as int] == fresh[i as int]@);
        let name = fresh[i].clone();
        let parameters = bind_all(mapping, &ds[i].parameters, counter);
        let body = uniquify(&ds[i].body, mapping, counter);
        restore(mapping, len);
        assert(mapping@ =~= old(mapping)@);
        let d = FunDecl { name, parameters, body, ann: () };
        let ghost dt = fun_term(d);
        out.push(d);
        assert(decl_terms(out) =~= before.push(dt));
        i += 1;
    }
    assert(ts.take(ds.len() as int) =~= ts);
    out
}

/// The expression with every binding renamed to a numeral, numbered from
/// the counter on. The numerals are fresh, bound nowhere else and given by
/// the substitution for no name, where the substitution gives only numerals
/// up to the counter, as it does from the start of a program on.
pub fn uniquify<Span>(e: &Exp<Span>, mapping: &mut Vec<(String, String)>, counter: &mut u32) -> (r:
    Exp<()>)
    requires
        *old(counter) + binders(e@) <= u32::MAX,
    ensures
        r@ == uniq(e@, renaming_of(old(mapping)@), *old(counter) as nat),
        *final(counter) == *old(counter) + binders(e@),
        final(mapping)@ == old(mapping)@,
    decreases e,
{
    match e {
        Exp::Num(i, _) => Exp::Num(*i, ()),
        Exp::Bool(b, _) => Exp::Bool(*b, ()),
        Exp::Var(v, _) => Exp::Var(renamed(mapping, v), ()),
        Exp::Prim(op, subjects, _) => {
            let uniq_sub = uniquify_boxed(subjects, mapping, counter);
            Exp::Prim(*op, uniq_sub, ())
        },
        Exp::Let { bindings, body, .. } => {
            let len = mapping.len();
            let mut_bind = uniquify_bindings(bindings, mapping, counter);
            let inner = uniquify(body, mapping, counter);
            restore(mapping, len);
            Exp::Let { bindings: mut_bind, body: Box::new(inner), ann: () }
        },
        Exp::If { cond, thn, els, .. } => {
            let c = uniquify(cond, mapping, counter);
            let a = uniquify(thn, mapping, counter);
            let b = uniquify(els, mapping, counter);
            Exp::If { cond: Box::new(c), thn: Box::new(a), els: Box::new(b), ann: () }
        },
        Exp::FunDefs { decls, body, .. } => {
            let len = mapping.len();
            let names = declared_names(decls);
            assert(decl_terms(*decls).len() == decls.len());
            assert(names_of(names@).len() == names.len());
            let ghost base = *counter as nat;
            let fresh = bind_all(mapping, &names, counter);
            let uniq_decls = uniquify_decls(decls, &fresh, Ghost(base), mapping, counter);
            let inner = uniquify(body, mapping, counter);
            restore(mapping, len);
            assert(mapping@ =~= old(mapping)@);
            Exp::FunDefs { decls: uniq_decls, body: Box::new(inner), ann: () }
        },
        Exp::Call(func, params, _) => {
            let uniq_params = uniquify_args(params, mapping, counter);
            Exp::Call(renamed(mapping, func), uniq_params, ())
        },
        Exp::InternalTailCall(func, params, _) => {
            let uniq_params = uniquify_args(params, mapping, counter);
            Exp::InternalTailCall(renamed(mapping, func), uniq_params, ())
        },
        Exp::ExternalCall { fun_name, args, is_tail, .. } => {
            let uniq_params = uniquify_args(args, mapping, counter);
            Exp::ExternalCall {
                fun_name: renamed(mapping, fun_name),
                args: uniq_params,
                is_tail: *is_tail,
                ann: (),
            }
        },
    }
}

} // verus!
