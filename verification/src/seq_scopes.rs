//! Sequentializing keeps every variable in scope: the sequential form of an
//! expression that is ready is one that the code generator takes.

use crate::compile::{compilable, imm_bound, imms_bound};
use crate::lambda_lift::bound_names;
use crate::lift_scopes::within;
use crate::names::has_name;
use crate::scopes::{globals_ready, lemma_has_name_concat, lemma_has_name_push, ready};
use crate::sequentializer::{arg_bindings, args_temps, bindings_temps, cond_name, decls_temps};
use crate::sequentializer::{imm_of, let_bindings, nest, operand, operands, seq_funs, seq_term};
use crate::sequentializer::{temp_name, temps};
use crate::syntax::{FunTerm, ImmTerm, Name, SeqTerm, Term};
use vstd::prelude::*;

verus! {

/// The names that a list of bindings binds.
pub open spec fn binding_vars(bs: Seq<(Name, SeqTerm)>) -> Seq<Name> {
    Seq::new(bs.len(), |j: int| bs[j].0)
}

/// An expression that the code generator takes under a scope is one that it
/// takes under any scope that holds every name of it.
pub proof fn lemma_compilable_weaken(s: SeqTerm, sc: Seq<Name>, sc2: Seq<Name>)
    requires
        compilable(s, sc),
        within(sc, sc2),
    ensures
        compilable(s, sc2),
    decreases s,
{
    match s {
        SeqTerm::Imm(i) => {
            lemma_imm_weaken(i, sc, sc2);
        },
        SeqTerm::Prim(_, args) => {
            assert forall|k: int| 0 <= k < args.len() implies imm_bound(#[trigger] args[k], sc2) by {
                assert(imm_bound(args[k], sc));
                lemma_imm_weaken(args[k], sc, sc2);
            }
        },
        SeqTerm::Let(x, b, body) => {
            lemma_compilable_weaken(*b, sc, sc2);
            assert forall|y: Name| has_name(sc.push(x), y) implies #[trigger] has_name(
                sc2.push(x),
                y,
            ) by {
                lemma_has_name_push(sc, x, y);
                lemma_has_name_push(sc2, x, y);
            }
            lemma_compilable_weaken(*body, sc.push(x), sc2.push(x));
        },
        SeqTerm::If(i, a, b) => {
            lemma_imm_weaken(i, sc, sc2);
            lemma_compilable_weaken(*a, sc, sc2);
            lemma_compilable_weaken(*b, sc, sc2);
        },
        SeqTerm::FunDefs(_, _) => {},
        SeqTerm::InternalTailCall(_, args) => {
            assert forall|k: int| 0 <= k < args.len() implies imm_bound(#[trigger] args[k], sc2) by {
                assert(imm_bound(args[k], sc));
                lemma_imm_weaken(args[k], sc, sc2);
            }
        },
        SeqTerm::ExternalCall(_, args, _) => {
            assert forall|k: int| 0 <= k < args.len() implies imm_bound(#[trigger] args[k], sc2) by {
                assert(imm_bound(args[k], sc));
                lemma_imm_weaken(args[k], sc, sc2);
            }
        },
    }
}

/// An operand that is bound under a scope is bound under any scope that
/// holds every name of it.
pub proof fn lemma_imm_weaken(i: ImmTerm, sc: Seq<Name>, sc2: Seq<Name>)
    requires
        imm_bound(i, sc),
        within(sc, sc2),
    ensures
        imm_bound(i, sc2),
{
    if let ImmTerm::Var(x) = i {
        assert(has_name(sc, x));
        assert(has_name(sc2, x));
    }
}

/// A scope is within the scope with more names after it.
pub proof fn lemma_within_concat(sc: Seq<Name>, more: Seq<Name>)
    ensures
        within(sc, sc + more),
        within(more, sc + more),
{
    assert forall|y: Name| has_name(sc, y) implies #[trigger] has_name(sc + more, y) by {
        lemma_has_name_concat(sc, more, y);
    }
    assert forall|y: Name| has_name(more, y) implies #[trigger] has_name(sc + more, y) by {
        lemma_has_name_concat(sc, more, y);
    }
}

/// Bindings nested around an expression make one that the code generator
/// takes, where it takes each bound expression under the names bound before
/// it, and the inner expression under all the names bound.
pub proof fn lemma_nest_compilable(bs: Seq<(Name, SeqTerm)>, inner: SeqTerm, sc: Seq<Name>)
    requires
        forall|j: int|
            0 <= j < bs.len() ==> compilable(
                (#[trigger] bs[j]).1,
                sc + binding_vars(bs).take(j),
            ),
        compilable(inner, sc + binding_vars(bs)),
    ensures
        compilable(nest(bs, inner), sc),
    decreases bs.len(),
{
    if bs.len() == 0 {
        assert(sc + binding_vars(bs) =~= sc);
    } else {
        let dl = bs.drop_last();
        let n = bs.len() - 1;
        let wrapped = SeqTerm::Let(bs.last().0, Box::new(bs.last().1), Box::new(inner));
        assert(binding_vars(bs).take(n) =~= binding_vars(dl));
        assert((sc + binding_vars(dl)).push(bs.last().0) =~= sc + binding_vars(bs));
        assert(compilable(bs[n].1, sc + binding_vars(bs).take(n)));
        assert(compilable(wrapped, sc + binding_vars(dl)));
        assert forall|j: int| 0 <= j < dl.len() implies compilable(
            (#[trigger] dl[j]).1,
            sc + binding_vars(dl).take(j),
        ) by {
            assert(dl[j] == bs[j]);
            assert(binding_vars(dl).take(j) =~= binding_vars(bs).take(j));
        }
        lemma_nest_compilable(dl, wrapped, sc);
    }
}

/// The sequential form of an expression that is ready is one that the code
/// generator takes.
pub proof fn lemma_seq_compilable(t: Term, sc: Seq<Name>, c: nat, tail: bool)
    requires
        ready(t, sc),
    ensures
        compilable(seq_term(t, c, tail), sc),
    decreases t,
{
    match t {
        Term::Num(_) => {},
        Term::Bool(_) => {},
        Term::Var(_) => {},
        Term::Prim(p, args) => {
            lemma_seq_args(args, sc, c);
            let inner = SeqTerm::Prim(p, operands(args, c));
            assert(compilable(inner, sc + binding_vars(arg_bindings(args, c))));
            lemma_nest_compilable(arg_bindings(args, c), inner, sc);
        },
        Term::Let(bs, body) => {
            lemma_seq_let(bs, sc, c);
            lemma_seq_compilable(*body, sc + bound_names(bs), c + bindings_temps(bs), tail);
            lemma_nest_compilable(
                let_bindings(bs, c),
                seq_term(*body, c + bindings_temps(bs), tail),
                sc,
            );
        },
        Term::If(c0, a, b) => {
            let n = c + 1;
            let x = cond_name(n);
            lemma_seq_compilable(*c0, sc, n, false);
            lemma_seq_compilable(*a, sc, n + temps(*c0), tail);
            lemma_seq_compilable(*b, sc, n + temps(*c0) + temps(*a), tail);
            assert forall|y: Name| has_name(sc, y) implies #[trigger] has_name(sc.push(x), y) by {
                lemma_has_name_push(sc, x, y);
            }
            lemma_has_name_push(sc, x, x);
            lemma_compilable_weaken(seq_term(*a, n + temps(*c0), tail), sc, sc.push(x));
            lemma_compilable_weaken(
                seq_term(*b, n + temps(*c0) + temps(*a), tail),
                sc,
                sc.push(x),
            );
            let branch = SeqTerm::If(
                ImmTerm::Var(x),
                Box::new(seq_term(*a, n + temps(*c0), tail)),
                Box::new(seq_term(*b, n + temps(*c0) + temps(*a), tail)),
            );
            assert(compilable(branch, sc.push(x)));
        },
        Term::ExternalCall(f, args, _) => {
            lemma_seq_args(args, sc, c);
            let inner = SeqTerm::ExternalCall(f, operands(args, c), tail);
            assert(compilable(inner, sc + binding_vars(arg_bindings(args, c))));
            lemma_nest_compilable(arg_bindings(args, c), inner, sc);
        },
        Term::FunDefs(_, _) => {},
        Term::Call(_, _) => {},
        Term::InternalTailCall(_, _) => {},
    }
}

/// The operands of arguments that are ready are bound under the
/// temporaries, and the bindings of the temporaries are such that the code
/// generator takes them.
pub proof fn lemma_seq_args(args: Seq<Term>, sc: Seq<Name>, c: nat)
    requires
        forall|i: int| 0 <= i < args.len() ==> ready(#[trigger] args[i], sc),
    ensures
        operands(args, c).len() == args.len(),
        forall|j: int|
            0 <= j < arg_bindings(args, c).len() ==> compilable(
                (#[trigger] arg_bindings(args, c)[j]).1,
                sc + binding_vars(arg_bindings(args, c)).take(j),
            ),
        imms_bound(operands(args, c), sc + binding_vars(arg_bindings(args, c))),
    decreases args,
{
    let bs = arg_bindings(args, c);
    let ops = operands(args, c);
    if args.len() == 0 {
    } else {
        let dl = args.drop_last();
        let last = args.last();
        let bd = arg_bindings(dl, c);
        let opsd = operands(dl, c);
        let c1 = c + args_temps(dl);
        assert forall|i: int| 0 <= i < dl.len() implies ready(#[trigger] dl[i], sc) by {
            assert(dl[i] == args[i]);
        }
        lemma_seq_args(dl, sc, c);
        assert(ready(args[args.len() - 1], sc));
        lemma_within_concat(sc, binding_vars(bd));
        lemma_within_concat(sc, binding_vars(bs));
        if imm_of(last) is Some {
            assert(bs == bd);
            assert forall|k: int| 0 <= k < ops.len() implies imm_bound(
                #[trigger] ops[k],
                sc + binding_vars(bs),
            ) by {
                if k < opsd.len() {
                    assert(ops[k] == opsd[k]);
                    assert(imm_bound(opsd[k], sc + binding_vars(bd)));
                } else {
                    assert(ops[k] == imm_of(last)->0);
                    if let Term::Var(y) = last {
                        assert(has_name(sc, y));
                        assert(has_name(sc + binding_vars(bs), y));
                    }
                }
            }
        } else {
            let x = temp_name(c1 + temps(last) + 1);
            let s = seq_term(last, c1, false);
            assert(bs == bd.push((x, s)));
            lemma_seq_compilable(last, sc, c1, false);
            lemma_compilable_weaken(s, sc, sc + binding_vars(bd));
            assert(binding_vars(bs).take(bd.len() as int) =~= binding_vars(bd));
            assert(sc + binding_vars(bs) =~= (sc + binding_vars(bd)).push(x));
            assert forall|j: int| 0 <= j < bs.len() implies compilable(
                (#[trigger] bs[j]).1,
                sc + binding_vars(bs).take(j),
            ) by {
                if j < bd.len() {
                    assert(bs[j] == bd[j]);
                    assert(binding_vars(bs).take(j) =~= binding_vars(bd).take(j));
                }
            }
            assert forall|k: int| 0 <= k < ops.len() implies imm_bound(
                #[trigger] ops[k],
                sc + binding_vars(bs),
            ) by {
                if k < opsd.len() {
                    assert(ops[k] == opsd[k]);
                    assert(imm_bound(opsd[k], sc + binding_vars(bd)));
                    if let ImmTerm::Var(y) = opsd[k] {
                        lemma_has_name_push(sc + binding_vars(bd), x, y);
                    }
                } else {
                    lemma_has_name_push(sc + binding_vars(bd), x, x);
                }
            }
        }
    }
}

/// The bindings of a `let` whose values are ready are such that the code
/// generator takes them, and they bind the same names.
pub proof fn lemma_seq_let(bs: Seq<(Name, Term)>, sc: Seq<Name>, c: nat)
    requires
        forall|i: int|
            0 <= i < bs.len() ==> ready((#[trigger] bs[i]).1, sc + bound_names(bs).take(i)),
    ensures
        let_bindings(bs, c).len() == bs.len(),
        binding_vars(let_bindings(bs, c)) == bound_names(bs),
        forall|j: int|
            0 <= j < bs.len() ==> compilable(
                (#[trigger] let_bindings(bs, c)[j]).1,
                sc + bound_names(bs).take(j),
            ),
    decreases bs,
{
    if bs.len() == 0 {
        assert(binding_vars(let_bindings(bs, c)) =~= bound_names(bs));
    } else {
        let dl = bs.drop_last();
        let n = bs.len() - 1;
        assert forall|i: int| 0 <= i < dl.len() implies ready(
            (#[trigger] dl[i]).1,
            sc + bound_names(dl).take(i),
        ) by {
            assert(dl[i] == bs[i]);
            assert(bound_names(dl).take(i) =~= bound_names(bs).take(i));
        }
        lemma_seq_let(dl, sc, c);
        assert(ready(bs[n].1, sc + bound_names(bs).take(n)));
        lemma_seq_compilable(bs.last().1, sc + bound_names(bs).take(n), c + bindings_temps(dl), false);
        let out = let_bindings(bs, c);
        assert(binding_vars(out) =~= bound_names(bs)) by {
            assert forall|j: int| 0 <= j < out.len() implies binding_vars(out)[j] == bound_names(
                bs,
            )[j] by {
                if j < n {
                    assert(out[j] == let_bindings(dl, c)[j]);
                    assert(binding_vars(let_bindings(dl, c))[j] == bound_names(dl)[j]);
                }
            }
        }
        assert forall|j: int| 0 <= j < bs.len() implies compilable(
            (#[trigger] out[j]).1,
            sc + bound_names(bs).take(j),
        ) by {
            if j < n {
                assert(out[j] == let_bindings(dl, c)[j]);
                assert(bound_names(dl).take(j) =~= bound_names(bs).take(j));
            }
        }
    }
}

/// The sequential forms of functions that are ready are such that the code
/// generator takes each under its parameters.
pub proof fn lemma_seq_funs(gs: Seq<FunTerm>, c: nat)
    requires
        globals_ready(gs),
    ensures
        seq_funs(gs, c).len() == gs.len(),
        forall|k: int|
            0 <= k < gs.len() ==> compilable(
                (#[trigger] seq_funs(gs, c)[k]).body,
                seq_funs(gs, c)[k].params,
            ) && seq_funs(gs, c)[k].params == gs[k].params,
    decreases gs,
{
    if gs.len() > 0 {
        let dl = gs.drop_last();
        assert forall|k: int| 0 <= k < dl.len() implies ready(
            (#[trigger] dl[k]).body,
            dl[k].params,
        ) by {
            assert(dl[k] == gs[k]);
        }
        lemma_seq_funs(dl, c);
        assert(ready(gs[gs.len() - 1].body, gs[gs.len() - 1].params));
        lemma_seq_compilable(gs.last().body, gs.last().params, c + decls_temps(dl), true);
        assert forall|k: int| 0 <= k < gs.len() implies compilable(
            (#[trigger] seq_funs(gs, c)[k]).body,
            seq_funs(gs, c)[k].params,
        ) && seq_funs(gs, c)[k].params == gs[k].params by {
            if k < gs.len() - 1 {
                assert(seq_funs(gs, c)[k] == seq_funs(dl, c)[k]);
            }
        }
    }
}

} // verus!
