//! What programs mean, as an evaluation that gathers what is printed and
//! is bounded by the number of calls it may make: of surface programs, whose
//! local functions are closures; of lifted programs and of programs in
//! sequential form, whose functions are looked up by name at the top
//! level.

use crate::interp::{bind_params, bool_of, EnvView, InterpFault, prim1_spec, prim2_spec, printed};
use crate::interp::{SnakeVal, stuck};
use crate::names::{index_of, lookup};
use crate::syntax::{FunTerm, ImmTerm, Name, Prim, SeqFunTerm, SeqTerm, Term};
use crate::uniquify::decl_names;
use vstd::prelude::*;

verus! {

/// What the evaluation of an expression comes to: a value, or an error;
/// either with all that was printed.
pub ghost enum Res {
    Done(SnakeVal, Seq<char>),
    Fail(InterpFault, Seq<char>),
}

/// What the evaluation of a list of expressions comes to.
pub ghost enum ResList {
    Done(Seq<SnakeVal>, Seq<char>),
    Fail(InterpFault, Seq<char>),
}

/// What the evaluation of a list of bindings comes to.
pub ghost enum ResEnv {
    Done(EnvView, Seq<char>),
    Fail(InterpFault, Seq<char>),
}

/// The result of a primitive on the values of its operands.
pub open spec fn apply_prim(p: Prim, vs: Seq<SnakeVal>, out: Seq<char>) -> Res {
    if p.arity() == 1 {
        let out1 = if p == Prim::Print {
            out + printed(vs[0])
        } else {
            out
        };
        match prim1_spec(p, vs[0]) {
            Ok(r) => Res::Done(r, out1),
            Err(f) => Res::Fail(f, out1),
        }
    } else {
        match prim2_spec(p, vs[0], vs[1]) {
            Ok(r) => Res::Done(r, out),
            Err(f) => Res::Fail(f, out),
        }
    }
}

/// What follows the condition of an `if`.
pub open spec fn choice(v: SnakeVal) -> Result<bool, InterpFault> {
    bool_of(v, "if"@, "if"@)
}

/// The place of the function `f` among the top-level functions, or -1.
pub open spec fn find_fun(names: Seq<Name>, f: Name) -> int {
    index_of(names, f)
}

/// The error of a call that cannot be made, if there is one: the
/// function is not there, it takes another number of arguments, or no call
/// may be made any more.
pub open spec fn call_fault(names: Seq<Name>, arities: Seq<nat>, f: Name, n: nat, fuel: nat) -> Option<
    InterpFault,
> {
    let k = find_fun(names, f);
    if k < 0 {
        Some(stuck("unbound function"@))
    } else if arities[k] != n {
        Some(InterpFault::ArityErr { expected_arity: arities[k] as usize, num_provided: n as usize })
    } else if fuel == 0 {
        Some(InterpFault::OutOfFuel)
    } else {
        None
    }
}

/// The numbers of parameters of the functions.
pub open spec fn arities_of(gs: Seq<FunTerm>) -> Seq<nat> {
    Seq::new(gs.len(), |k: int| gs[k].params.len())
}

/// The value of a lifted expression under the environment `env`, with the
/// top-level functions `gs`, where `fuel` calls may be made and `out` was
/// printed before.
pub open spec fn eval(gs: Seq<FunTerm>, t: Term, env: EnvView, fuel: nat, out: Seq<char>) -> Res
    decreases fuel, t,
{
    match t {
        Term::Num(n) => Res::Done(SnakeVal::Num(n), out),
        Term::Bool(b) => Res::Done(SnakeVal::Bool(b), out),
        Term::Var(x) => match lookup(env, x) {
            Some(v) => Res::Done(v, out),
            None => Res::Fail(stuck("unbound variable"@), out),
        },
        Term::Prim(p, args) => if args.len() != p.arity() {
            Res::Fail(stuck("malformed primitive"@), out)
        } else {
            match eval_args(gs, args, env, fuel, out) {
                ResList::Fail(f, o) => Res::Fail(f, o),
                ResList::Done(vs, o) => apply_prim(p, vs, o),
            }
        },
        Term::Let(bs, body) => match eval_bindings(gs, bs, env, fuel, out) {
            ResEnv::Fail(f, o) => Res::Fail(f, o),
            ResEnv::Done(env1, o) => eval(gs, *body, env1, fuel, o),
        },
        Term::If(c, a, b) => match eval(gs, *c, env, fuel, out) {
            Res::Fail(f, o) => Res::Fail(f, o),
            Res::Done(v, o) => match choice(v) {
                Err(f) => Res::Fail(f, o),
                Ok(yes) => if yes {
                    eval(gs, *a, env, fuel, o)
                } else {
                    eval(gs, *b, env, fuel, o)
                },
            },
        },
        Term::ExternalCall(f, args, _) => match eval_args(gs, args, env, fuel, out) {
            ResList::Fail(e, o) => Res::Fail(e, o),
            ResList::Done(vs, o) => match call_fault(
                decl_names(gs),
                arities_of(gs),
                f,
                vs.len(),
                fuel,
            ) {
                Some(e) => Res::Fail(e, o),
                None => {
                    let k = find_fun(decl_names(gs), f);
                    if fuel > 0 && 0 <= k < gs.len() {
                        eval(
                            gs,
                            gs[k].body,
                            bind_params(Seq::empty(), gs[k].params, vs),
                            (fuel - 1) as nat,
                            o,
                        )
                    } else {
                        Res::Fail(stuck("unbound function"@), o)
                    }
                },
            },
        },
        _ => Res::Fail(stuck("local function"@), out),
    }
}

/// The values of a list of arguments, from left to right.
pub open spec fn eval_args(
    gs: Seq<FunTerm>,
    args: Seq<Term>,
    env: EnvView,
    fuel: nat,
    out: Seq<char>,
) -> ResList
    decreases fuel, args,
{
    if args.len() == 0 {
        ResList::Done(Seq::empty(), out)
    } else {
        match eval_args(gs, args.drop_last(), env, fuel, out) {
            ResList::Fail(f, o) => ResList::Fail(f, o),
            ResList::Done(vs, o) => match eval(gs, args.last(), env, fuel, o) {
                Res::Fail(f, o1) => ResList::Fail(f, o1),
                Res::Done(v, o1) => ResList::Done(vs.push(v), o1),
            },
        }
    }
}

/// The environment after the bindings of a `let`: each value is computed
/// under the bindings before it.
pub open spec fn eval_bindings(
    gs: Seq<FunTerm>,
    bs: Seq<(Name, Term)>,
    env: EnvView,
    fuel: nat,
    out: Seq<char>,
) -> ResEnv
    decreases fuel, bs,
{
    if bs.len() == 0 {
        ResEnv::Done(env, out)
    } else {
        match eval_bindings(gs, bs.drop_last(), env, fuel, out) {
            ResEnv::Fail(f, o) => ResEnv::Fail(f, o),
            ResEnv::Done(env1, o) => match eval(gs, bs.last().1, env1, fuel, o) {
                Res::Fail(f, o1) => ResEnv::Fail(f, o1),
                Res::Done(v, o1) => ResEnv::Done(env1.push((bs.last().0, v)), o1),
            },
        }
    }
}

/// The value of an immediate, where its name is bound.
pub open spec fn imm_value(i: ImmTerm, env: EnvView) -> Option<SnakeVal> {
    match i {
        ImmTerm::Num(n) => Some(SnakeVal::Num(n)),
        ImmTerm::Bool(b) => Some(SnakeVal::Bool(b)),
        ImmTerm::Var(x) => lookup(env, x),
    }
}

/// The values of immediates, where all their names are bound.
pub open spec fn imm_values(is: Seq<ImmTerm>, env: EnvView) -> Option<Seq<SnakeVal>> {
    if forall|k: int| 0 <= k < is.len() ==> imm_value(#[trigger] is[k], env) is Some {
        Some(Seq::new(is.len(), |k: int| imm_value(is[k], env)->0))
    } else {
        None
    }
}

pub open spec fn seq_names(gs: Seq<SeqFunTerm>) -> Seq<Name> {
    Seq::new(gs.len(), |k: int| gs[k].name)
}

pub open spec fn seq_arities(gs: Seq<SeqFunTerm>) -> Seq<nat> {
    Seq::new(gs.len(), |k: int| gs[k].params.len())
}

/// The value of an expression in sequential form.
pub open spec fn seval(
    gs: Seq<SeqFunTerm>,
    t: SeqTerm,
    env: EnvView,
    fuel: nat,
    out: Seq<char>,
) -> Res
    decreases fuel, t,
{
    match t {
        SeqTerm::Imm(i) => match imm_value(i, env) {
            Some(v) => Res::Done(v, out),
            None => Res::Fail(stuck("unbound variable"@), out),
        },
        SeqTerm::Prim(p, args) => if args.len() != p.arity() {
            Res::Fail(stuck("malformed primitive"@), out)
        } else {
            match imm_values(args, env) {
                None => Res::Fail(stuck("unbound variable"@), out),
                Some(vs) => apply_prim(p, vs, out),
            }
        },
        SeqTerm::Let(x, b, body) => match seval(gs, *b, env, fuel, out) {
            Res::Fail(f, o) => Res::Fail(f, o),
            Res::Done(v, o) => seval(gs, *body, env.push((x, v)), fuel, o),
        },
        SeqTerm::If(c, a, b) => match imm_value(c, env) {
            None => Res::Fail(stuck("unbound variable"@), out),
            Some(v) => match choice(v) {
                Err(f) => Res::Fail(f, out),
                Ok(yes) => if yes {
                    seval(gs, *a, env, fuel, out)
                } else {
                    seval(gs, *b, env, fuel, out)
                },
            },
        },
        SeqTerm::ExternalCall(f, args, _) => match imm_values(args, env) {
            None => Res::Fail(stuck("unbound variable"@), out),
            Some(vs) => match call_fault(seq_names(gs), seq_arities(gs), f, vs.len(), fuel) {
                Some(e) => Res::Fail(e, out),
                None => {
                    let k = find_fun(seq_names(gs), f);
                    if fuel > 0 && 0 <= k < gs.len() {
                        seval(
                            gs,
                            gs[k].body,
                            bind_params(Seq::empty(), gs[k].params, vs),
                            (fuel - 1) as nat,
                            out,
                        )
                    } else {
                        Res::Fail(stuck("unbound function"@), out)
                    }
                },
            },
        },
        _ => Res::Fail(stuck("local function"@), out),
    }
}

/// The environment after a list of bindings in sequential form.
pub open spec fn seval_bindings(
    gs: Seq<SeqFunTerm>,
    bs: Seq<(Name, SeqTerm)>,
    env: EnvView,
    fuel: nat,
    out: Seq<char>,
) -> ResEnv
    decreases bs.len(),
{
    if bs.len() == 0 {
        ResEnv::Done(env, out)
    } else {
        match seval_bindings(gs, bs.drop_last(), env, fuel, out) {
            ResEnv::Fail(f, o) => ResEnv::Fail(f, o),
            ResEnv::Done(env1, o) => match seval(gs, bs.last().1, env1, fuel, o) {
                Res::Fail(f, o1) => ResEnv::Fail(f, o1),
                Res::Done(v, o1) => ResEnv::Done(env1.push((bs.last().0, v)), o1),
            },
        }
    }
}

/// A local function with what it sees: the variables and the functions
/// in scope where its group is defined, the group, and its place in it.
pub ghost struct Clo {
    pub env: EnvView,
    pub fenv: Seq<(Name, Clo)>,
    pub group: Seq<FunTerm>,
    pub index: nat,
}

/// The functions in scope, the newest last.
pub type FunEnv = Seq<(Name, Clo)>;

/// The functions in scope with the functions of a group added.
pub open spec fn group_env(env: EnvView, fenv: FunEnv, ds: Seq<FunTerm>) -> FunEnv {
    fenv + Seq::new(ds.len(), |j: int| (ds[j].name, Clo { env, fenv, group: ds, index: j as nat }))
}

/// The declaration of a closure.
pub open spec fn clo_decl(c: Clo) -> FunTerm {
    c.group[c.index as int]
}

/// The error of a call of a closure that cannot be made, if there is one.
pub open spec fn closure_fault(c: Clo, n: nat, fuel: nat) -> Option<InterpFault> {
    if c.index >= c.group.len() {
        Some(stuck("no such closure"@))
    } else if clo_decl(c).params.len() != n {
        Some(
            InterpFault::ArityErr {
                expected_arity: clo_decl(c).params.len() as usize,
                num_provided: n as usize,
            },
        )
    } else if fuel == 0 {
        Some(InterpFault::OutOfFuel)
    } else {
        None
    }
}

/// The value of a surface expression under the variables `env` and the
/// functions `fenv`, where `fuel` calls may be made and `out` was printed
/// before.
pub open spec fn beval(t: Term, env: EnvView, fenv: FunEnv, fuel: nat, out: Seq<char>) -> Res
    decreases fuel, t,
{
    match t {
        Term::Num(n) => Res::Done(SnakeVal::Num(n), out),
        Term::Bool(b) => Res::Done(SnakeVal::Bool(b), out),
        Term::Var(x) => match lookup(env, x) {
            Some(v) => Res::Done(v, out),
            None => Res::Fail(stuck("unbound variable"@), out),
        },
        Term::Prim(p, args) => if args.len() != p.arity() {
            Res::Fail(stuck("malformed primitive"@), out)
        } else {
            match beval_args(args, env, fenv, fuel, out) {
                ResList::Fail(f, o) => Res::Fail(f, o),
                ResList::Done(vs, o) => apply_prim(p, vs, o),
            }
        },
        Term::Let(bs, body) => match beval_bindings(bs, env, fenv, fuel, out) {
            ResEnv::Fail(f, o) => Res::Fail(f, o),
            ResEnv::Done(env1, o) => beval(*body, env1, fenv, fuel, o),
        },
        Term::If(c, a, b) => match beval(*c, env, fenv, fuel, out) {
            Res::Fail(f, o) => Res::Fail(f, o),
            Res::Done(v, o) => match choice(v) {
                Err(f) => Res::Fail(f, o),
                Ok(yes) => if yes {
                    beval(*a, env, fenv, fuel, o)
                } else {
                    beval(*b, env, fenv, fuel, o)
                },
            },
        },
        Term::FunDefs(ds, body) => beval(*body, env, group_env(env, fenv, ds), fuel, out),
        Term::Call(f, args) => match lookup(fenv, f) {
            None => Res::Fail(stuck("unbound function"@), out),
            Some(c) => match beval_args(args, env, fenv, fuel, out) {
                ResList::Fail(e, o) => Res::Fail(e, o),
                ResList::Done(vs, o) => match closure_fault(c, vs.len(), fuel) {
                    Some(e) => Res::Fail(e, o),
                    None => if fuel > 0 {
                        beval(
                            clo_decl(c).body,
                            bind_params(c.env, clo_decl(c).params, vs),
                            group_env(c.env, c.fenv, c.group),
                            (fuel - 1) as nat,
                            o,
                        )
                    } else {
                        Res::Fail(InterpFault::OutOfFuel, o)
                    },
                },
            },
        },
        _ => Res::Fail(stuck("internal compiler form"@), out),
    }
}

/// The values of a list of arguments, from left to right.
pub open spec fn beval_args(
    args: Seq<Term>,
    env: EnvView,
    fenv: FunEnv,
    fuel: nat,
    out: Seq<char>,
) -> ResList
    decreases fuel, args,
{
    if args.len() == 0 {
        ResList::Done(Seq::empty(), out)
    } else {
        match beval_args(args.drop_last(), env, fenv, fuel, out) {
            ResList::Fail(f, o) => ResList::Fail(f, o),
            ResList::Done(vs, o) => match beval(args.last(), env, fenv, fuel, o) {
                Res::Fail(f, o1) => ResList::Fail(f, o1),
                Res::Done(v, o1) => ResList::Done(vs.push(v), o1),
            },
        }
    }
}

/// The variables after the bindings of a `let`.
pub open spec fn beval_bindings(
    bs: Seq<(Name, Term)>,
    env: EnvView,
    fenv: FunEnv,
    fuel: nat,
    out: Seq<char>,
) -> ResEnv
    decreases fuel, bs,
{
    if bs.len() == 0 {
        ResEnv::Done(env, out)
    } else {
        match beval_bindings(bs.drop_last(), env, fenv, fuel, out) {
            ResEnv::Fail(f, o) => ResEnv::Fail(f, o),
            ResEnv::Done(env1, o) => match beval(bs.last().1, env1, fenv, fuel, o) {
                Res::Fail(f, o1) => ResEnv::Fail(f, o1),
                Res::Done(v, o1) => ResEnv::Done(env1.push((bs.last().0, v)), o1),
            },
        }
    }
}

} // verus!
