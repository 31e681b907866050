//! The semantic check: scopes, arities and the range of number literals. One
//! error is reported, the first that a walk from left to right meets.

use crate::compile::{MAX_INT, MIN_INT};
use crate::names::{find_last, has_name, index_of, lemma_index_of, lookup, table_of};
use crate::syntax::{Exp, FunDecl, Name, names_of, SurfProg};
use crate::uniquify::declared_names;
use vstd::prelude::*;

verus! {

/// What went wrong, and where.
#[derive(Debug, PartialEq, Eq)]
pub enum CompileErr<Span> {
    UnboundVariable { unbound: String, location: Span },
    UndefinedFunction { undefined: String, location: Span },
    /// The location is that of the `let` that holds the two bindings.
    DuplicateBinding { duplicated_name: String, location: Span },
    Overflow { num: i64, location: Span },
    /// The location is that of the second function.
    DuplicateFunName { duplicated_name: String, location: Span },
    /// The location is that of the function.
    DuplicateArgName { duplicated_name: String, location: Span },
    FunctionUsedAsValue { function_name: String, location: Span },
    ValueUsedAsFunction { variable_name: String, location: Span },
    /// The location is that of the call.
    FunctionCalledWrongArity {
        function_name: String,
        correct_arity: usize,
        arity_used: usize,
        location: Span,
    },
}

/// An error without its location.
pub ghost enum Fault {
    UnboundVariable(Name),
    UndefinedFunction(Name),
    DuplicateBinding(Name),
    Overflow(i64),
    DuplicateFunName(Name),
    DuplicateArgName(Name),
    FunctionUsedAsValue(Name),
    ValueUsedAsFunction(Name),
    FunctionCalledWrongArity(Name, usize, usize),
}

impl<Span> CompileErr<Span> {
    pub open spec fn fault(self) -> Fault {
        match self {
            CompileErr::UnboundVariable { unbound, .. } => Fault::UnboundVariable(unbound@),
            CompileErr::UndefinedFunction { undefined, .. } => Fault::UndefinedFunction(undefined@),
            CompileErr::DuplicateBinding { duplicated_name, .. } => Fault::DuplicateBinding(
                duplicated_name@,
            ),
            CompileErr::Overflow { num, .. } => Fault::Overflow(num),
            CompileErr::DuplicateFunName { duplicated_name, .. } => Fault::DuplicateFunName(
                duplicated_name@,
            ),
            CompileErr::DuplicateArgName { duplicated_name, .. } => Fault::DuplicateArgName(
                duplicated_name@,
            ),
            CompileErr::FunctionUsedAsValue { function_name, .. } => Fault::FunctionUsedAsValue(
                function_name@,
            ),
            CompileErr::ValueUsedAsFunction { variable_name, .. } => Fault::ValueUsedAsFunction(
                variable_name@,
            ),
            CompileErr::FunctionCalledWrongArity {
                function_name,
                correct_arity,
                arity_used,
                ..
            } => Fault::FunctionCalledWrongArity(function_name@, correct_arity, arity_used),
        }
    }

    pub open spec fn location(self) -> Span {
        match self {
            CompileErr::UnboundVariable { location, .. } => location,
            CompileErr::UndefinedFunction { location, .. } => location,
            CompileErr::DuplicateBinding { location, .. } => location,
            CompileErr::Overflow { location, .. } => location,
            CompileErr::DuplicateFunName { location, .. } => location,
            CompileErr::DuplicateArgName { location, .. } => location,
            CompileErr::FunctionUsedAsValue { location, .. } => location,
            CompileErr::ValueUsedAsFunction { location, .. } => location,
            CompileErr::FunctionCalledWrongArity { location, .. } => location,
        }
    }
}

/// What a name in scope stands for.
#[derive(Clone, Copy, Debug, PartialEq, Eq, Structural)]
pub enum Kind {
    Var,
    Fun(usize),
}

/// The names in scope, the newest last. Variables and functions share it.
pub type Scope = Seq<(Name, Kind)>;

/// Whether a number literal is outside the 63 bits of a number.
pub open spec fn out_of_range(n: i64) -> bool {
    n > MAX_INT || n < MIN_INT
}

/// The fault of using `x` as a value.
pub open spec fn var_fault(env: Scope, x: Name) -> Option<Fault> {
    match lookup(env, x) {
        None => Some(Fault::UnboundVariable(x)),
        Some(Kind::Fun(_)) => Some(Fault::FunctionUsedAsValue(x)),
        Some(Kind::Var) => None,
    }
}

/// The fault of calling `f` with `n` arguments.
pub open spec fn call_fault(env: Scope, f: Name, n: usize) -> Option<Fault> {
    match lookup(env, f) {
        None => Some(Fault::UndefinedFunction(f)),
        Some(Kind::Var) => Some(Fault::ValueUsedAsFunction(f)),
        Some(Kind::Fun(arity)) => if arity == n {
            None
        } else {
            Some(Fault::FunctionCalledWrongArity(f, arity, n))
        },
    }
}

/// The first position below `n` whose name occurs before it.
pub open spec fn duplicate_in(names: Seq<Name>, n: nat) -> Option<int>
    decreases n,
{
    if n == 0 {
        None
    } else {
        match duplicate_in(names, (n - 1) as nat) {
            Some(i) => Some(i),
            None => if has_name(names.take(n - 1), names[n - 1]) {
                Some(n - 1)
            } else {
                None
            },
        }
    }
}

/// The names that the bindings of a `let` bind.
pub open spec fn let_names<Span>(bs: Vec<(String, Exp<Span>)>) -> Seq<Name> {
    Seq::new(bs.len() as nat, |j: int| bs[j].0@)
}

/// The names that a group declares.
pub open spec fn group_names<Span>(ds: Vec<FunDecl<Exp<Span>, Span>>) -> Seq<Name> {
    Seq::new(ds.len() as nat, |j: int| ds[j].name@)
}

/// A scope extended by variables.
pub open spec fn with_vars(env: Scope, xs: Seq<Name>) -> Scope {
    env + Seq::new(xs.len(), |j: int| (xs[j], Kind::Var))
}

/// A scope extended by the functions of a group.
pub open spec fn with_funs<Span>(env: Scope, ds: Vec<FunDecl<Exp<Span>, Span>>) -> Scope {
    env + Seq::new(ds.len() as nat, |j: int| (ds[j].name@, Kind::Fun(ds[j].parameters.len())))
}

/// The first error of an expression under the scope `env`, if it has one.
pub open spec fn check_exp<Span>(e: &Exp<Span>, env: Scope) -> Option<(Fault, Span)>
    decreases e,
{
    match e {
        Exp::Num(n, ann) => if out_of_range(*n) {
            Some((Fault::Overflow(*n), *ann))
        } else {
            None
        },
        Exp::Bool(_, _) => None,
        Exp::Var(x, ann) => match var_fault(env, x@) {
            Some(f) => Some((f, *ann)),
            None => None,
        },
        Exp::Prim(_, es, _) => boxed_error(es, es.len() as nat, env),
        Exp::Let { bindings, body, ann } => match let_error(
            bindings,
            bindings.len() as nat,
            env,
            *ann,
        ) {
            Some(err) => Some(err),
            None => check_exp(body, with_vars(env, let_names(*bindings))),
        },
        Exp::If { cond, thn, els, .. } => match check_exp(cond, env) {
            Some(err) => Some(err),
            None => match check_exp(thn, env) {
                Some(err) => Some(err),
                None => check_exp(els, env),
            },
        },
        Exp::FunDefs { decls, body, .. } => match duplicate_in(
            group_names(*decls),
            decls.len() as nat,
        ) {
            Some(i) => Some((Fault::DuplicateFunName(decls[i].name@), decls[i].ann)),
            None => match decls_error(decls, decls.len() as nat, with_funs(env, *decls)) {
                Some(err) => Some(err),
                None => check_exp(body, with_funs(env, *decls)),
            },
        },
        Exp::Call(f, args, ann) => match call_fault(env, f@, args.len()) {
            Some(fault) => Some((fault, *ann)),
            None => args_error(args, args.len() as nat, env),
        },
        Exp::InternalTailCall(f, args, ann) => match call_fault(env, f@, args.len()) {
            Some(fault) => Some((fault, *ann)),
            None => args_error(args, args.len() as nat, env),
        },
        Exp::ExternalCall { fun_name, args, ann, .. } => match call_fault(
            env,
            fun_name@,
            args.len(),
        ) {
            Some(fault) => Some((fault, *ann)),
            None => args_error(args, args.len() as nat, env),
        },
    }
}

/// The first error among the first `n` operands.
pub open spec fn boxed_error<Span>(es: &Vec<Box<Exp<Span>>>, n: nat, env: Scope) -> Option<
    (Fault, Span),
>
    decreases es, n,
{
    if n == 0 || n > es.len() {
        None
    } else {
        match boxed_error(es, (n - 1) as nat, env) {
            Some(err) => Some(err),
            None => check_exp(&*es[n - 1], env),
        }
    }
}

/// The first error among the first `n` arguments.
pub open spec fn args_error<Span>(es: &Vec<Exp<Span>>, n: nat, env: Scope) -> Option<(Fault, Span)>
    decreases es, n,
{
    if n == 0 || n > es.len() {
        None
    } else {
        match args_error(es, (n - 1) as nat, env) {
            Some(err) => Some(err),
            None => check_exp(&es[n - 1], env),
        }
    }
}

/// The first error among the first `n` bindings of a `let` at `ann`: a name
/// bound before in the same `let`, or an error of a value, which is checked
/// under the bindings before it.
pub open spec fn let_error<Span>(bs: &Vec<(String, Exp<Span>)>, n: nat, env: Scope, ann: Span) -> Option<
    (Fault, Span),
>
    decreases bs, n,
{
    if n == 0 || n > bs.len() {
        None
    } else {
        match let_error(bs, (n - 1) as nat, env, ann) {
            Some(err) => Some(err),
            None => if has_name(let_names(*bs).take(n - 1), bs[n - 1].0@) {
                Some((Fault::DuplicateBinding(bs[n - 1].0@), ann))
            } else {
                check_exp(&bs[n - 1].1, with_vars(env, let_names(*bs).take(n - 1)))
            },
        }
    }
}

/// The first error among the first `n` functions of a group: a parameter
/// name used twice, or an error of a body, which is checked under the group
/// and the function's parameters.
pub open spec fn decls_error<Span>(ds: &Vec<FunDecl<Exp<Span>, Span>>, n: nat, env: Scope) -> Option<
    (Fault, Span),
>
    decreases ds, n,
{
    if n == 0 || n > ds.len() {
        None
    } else {
        match decls_error(ds, (n - 1) as nat, env) {
            Some(err) => Some(err),
            None => {
                let d = ds[n - 1];
                match duplicate_in(names_of(d.parameters@), d.parameters.len() as nat) {
                    Some(j) => Some((Fault::DuplicateArgName(d.parameters[j]@), d.ann)),
                    None => check_exp(&d.body, with_vars(env, names_of(d.parameters@))),
                }
            },
        }
    }
}

/// Whether a result reports the error that the specification names: the same
/// fault, at a clone of the same location.
pub open spec fn agrees<Span: Clone>(
    r: Result<(), CompileErr<Span>>,
    want: Option<(Fault, Span)>,
) -> bool {
    match (r, want) {
        (Ok(_), None) => true,
        (Err(e), Some((fault, location))) => e.fault() == fault && cloned(location, e.location()),
        _ => false,
    }
}

/// Whether `x` occurs among the first `n` names.
pub fn seen_before(names: &Vec<String>, n: usize, x: &String) -> (r: bool)
    requires
        n <= names.len(),
    ensures
        r == has_name(names_of(names@).take(n as int), x@),
{
    let ghost ns = names_of(names@).take(n as int);
    let mut j: usize = n;
    assert(ns.take(n as int) =~= ns);
    while j > 0
        invariant
            j <= n,
            n <= names.len(),
            ns == names_of(names@).take(n as int),
            index_of(ns, x@) == index_of(ns.take(j as int), x@),
        decreases j,
    {
        assert(ns.take(j as int).last() == names@[j - 1]@);
        if names[j - 1] == *x {
            proof {
                lemma_index_of(ns.take(j as int), x@);
            }
            return true;
        }
        assert(ns.take(j as int).drop_last() =~= ns.take(j - 1));
        j -= 1;
    }
    assert(ns.take(0).len() == 0);
    false
}

/// The first position whose name occurs before it.
pub fn first_duplicate(names: &Vec<String>) -> (r: Option<usize>)
    ensures
        match r {
            Some(i) => i < names.len() && duplicate_in(names_of(names@), names.len() as nat)
                == Some(i as int),
            None => duplicate_in(names_of(names@), names.len() as nat) is None,
        },
{
    let ghost ns = names_of(names@);
    let mut i: usize = 0;
    while i < names.len()
        invariant
            i <= names.len(),
            ns == names_of(names@),
            duplicate_in(ns, i as nat) is None,
        decreases names.len() - i,
    {
        if seen_before(names, i, &names[i]) {
            proof {
                lemma_duplicate_found(ns, (i + 1) as nat, names.len() as nat);
            }
            return Some(i);
        }
        i += 1;
    }
    None
}

/// A duplicate found among the first names is the one found among more.
pub proof fn lemma_duplicate_found(names: Seq<Name>, n: nat, m: nat)
    requires
        n <= m,
        duplicate_in(names, n) is Some,
    ensures
        duplicate_in(names, m) == duplicate_in(names, n),
    decreases m,
{
    if n < m {
        lemma_duplicate_found(names, n, (m - 1) as nat);
    }
}

/// The names that the bindings of a `let` bind.
pub fn binding_names<Span>(bs: &Vec<(String, Exp<Span>)>) -> (r: Vec<String>)
    ensures
        names_of(r@) == let_names(*bs),
{
    let mut out: Vec<String> = Vec::new();
    let mut i: usize = 0;
    while i < bs.len()
        invariant
            i <= bs.len(),
            out.len() == i,
            forall|j: int| 0 <= j < i ==> out[j]@ == bs[j].0@,
        decreases bs.len() - i,
    {
        out.push(bs[i].0.clone());
        i += 1;
    }
    assert(names_of(out@) =~= let_names(*bs));
    out
}

/// The use of `x` as a value.
pub fn check_var<Span: Clone>(x: &String, ann: &Span, env: &Vec<(String, Kind)>) -> (r: Result<
    (),
    CompileErr<Span>,
>)
    ensures
        agrees(
            r,
            match var_fault(table_of(env@), x@) {
                Some(f) => Some((f, *ann)),
                None => None,
            },
        ),
{
    match find_last(env, x) {
        None => Err(CompileErr::UnboundVariable { unbound: x.clone(), location: ann.clone() }),
        Some(i) => match env[i].1 {
            Kind::Fun(_) => Err(
                CompileErr::FunctionUsedAsValue { function_name: x.clone(), location: ann.clone() },
            ),
            Kind::Var => Ok(()),
        },
    }
}

/// The call of `f` with `n` arguments.
pub fn check_call<Span: Clone>(f: &String, n: usize, ann: &Span, env: &Vec<(String, Kind)>) -> (r:
    Result<(), CompileErr<Span>>)
    ensures
        agrees(
            r,
            match call_fault(table_of(env@), f@, n) {
                Some(fault) => Some((fault, *ann)),
                None => None,
            },
        ),
{
    match find_last(env, f) {
        None => Err(CompileErr::UndefinedFunction { undefined: f.clone(), location: ann.clone() }),
        Some(i) => match env[i].1 {
            Kind::Var => Err(
                CompileErr::ValueUsedAsFunction { variable_name: f.clone(), location: ann.clone() },
            ),
            Kind::Fun(arity) => if arity == n {
                Ok(())
            } else {
                Err(
                    CompileErr::FunctionCalledWrongArity {
                        function_name: f.clone(),
                        correct_arity: arity,
                        arity_used: n,
                        location: ann.clone(),
                    },
                )
            },
        },
    }
}

/// Adds variables to the scope.
pub fn declare_vars(env: &mut Vec<(String, Kind)>, xs: &Vec<String>)
    ensures
        final(env)@.len() == old(env)@.len() + xs.len(),
        final(env)@.take(old(env)@.len() as int) == old(env)@,
        table_of(final(env)@) == with_vars(table_of(old(env)@), names_of(xs@)),
{
    let ghost start = table_of(env@);
    let ghost names = names_of(xs@);
    let mut j: usize = 0;
    assert(table_of(env@) =~= with_vars(start, names.take(0)));
    assert(env@.take(old(env)@.len() as int) =~= old(env)@);
    while j < xs.len()
        invariant
            j <= xs.len(),
            names == names_of(xs@),
            env@.len() == old(env)@.len() + j,
            env@.take(old(env)@.len() as int) == old(env)@,
            table_of(env@) == with_vars(start, names.take(j as int)),
        decreases xs.len() - j,
    {
        let ghost held = env@;
        env.push((xs[j].clone(), Kind::Var));
        proof {
            assert(table_of(env@) =~= table_of(held).push((xs[j as int]@, Kind::Var)));
            assert(with_vars(start, names.take(j + 1)) =~= with_vars(
                start,
                names.take(j as int),
            ).push((xs[j as int]@, Kind::Var)));
            assert(env@.take(old(env)@.len() as int) =~= held.take(old(env)@.len() as int));
        }
        j += 1;
    }
    assert(names.take(xs.len() as int) =~= names);
}

/// Adds the functions of a group to the scope.
pub fn declare_funs<Span>(env: &mut Vec<(String, Kind)>, ds: &Vec<FunDecl<Exp<Span>, Span>>)
    ensures
        final(env)@.len() == old(env)@.len() + ds.len(),
        final(env)@.take(old(env)@.len() as int) == old(env)@,
        table_of(final(env)@) == with_funs(table_of(old(env)@), *ds),
{
    let ghost start = table_of(env@);
    let mut j: usize = 0;
    assert(env@.take(old(env)@.len() as int) =~= old(env)@);
    assert(table_of(env@) =~= start + Seq::new(
        0,
        |k: int| (ds[k].name@, Kind::Fun(ds[k].parameters.len())),
    ));
    while j < ds.len()
        invariant
            j <= ds.len(),
            env@.len() == old(env)@.len() + j,
            env@.take(old(env)@.len() as int) == old(env)@,
            table_of(env@) == start + Seq::new(
                j as nat,
                |k: int| (ds[k].name@, Kind::Fun(ds[k].parameters.len())),
            ),
        decreases ds.len() - j,
    {
        let ghost held = env@;
        env.push((ds[j].name.clone(), Kind::Fun(ds[j].parameters.len())));
        proof {
            assert(table_of(env@) =~= table_of(held).push(
                (ds[j as int].name@, Kind::Fun(ds[j as int].parameters.len())),
            ));
            assert(table_of(env@) =~= start + Seq::new(
                (j + 1) as nat,
                |k: int| (ds[k].name@, Kind::Fun(ds[k].parameters.len())),
            ));
            assert(env@.take(old(env)@.len() as int) =~= held.take(old(env)@.len() as int));
        }
        j += 1;
    }
}

/// Takes the newest names off the scope until `len` are left.
pub fn leave_scope(env: &mut Vec<(String, Kind)>, len: usize)
    requires
        len <= old(env).len(),
    ensures
        final(env)@ == old(env)@.take(len as int),
{
    env.truncate(len);
    assert(env@ =~= old(env)@.take(len as int));
}

/// The operands of a primitive.
pub fn check_boxed<Span: Clone>(es: &Vec<Box<Exp<Span>>>, env: &mut Vec<(String, Kind)>) -> (r:
    Result<(), CompileErr<Span>>)
    ensures
        agrees(r, boxed_error(es, es.len() as nat, table_of(old(env)@))),
        final(env)@ == old(env)@,
    decreases es,
{
    let mut i: usize = 0;
    while i < es.len()
        invariant
            i <= es.len(),
            env@ == old(env)@,
            boxed_error(es, i as nat, table_of(env@)) is None,
        decreases es.len() - i,
    {
        match check_in(&*es[i], env) {
            Err(err) => {
                proof {
                    lemma_boxed_error_found(es, (i + 1) as nat, es.len() as nat, table_of(env@));
                }
                return Err(err);
            },
            Ok(_) => {},
        }
        i += 1;
    }
    Ok(())
}

/// An error found among the first operands is the one found among more.
pub proof fn lemma_boxed_error_found<Span>(es: &Vec<Box<Exp<Span>>>, n: nat, m: nat, env: Scope)
    requires
        n <= m <= es.len(),
        boxed_error(es, n, env) is Some,
    ensures
        boxed_error(es, m, env) == boxed_error(es, n, env),
    decreases m,
{
    if n < m {
        lemma_boxed_error_found(es, n, (m - 1) as nat, env);
    }
}

pub proof fn lemma_args_error_found<Span>(es: &Vec<Exp<Span>>, n: nat, m: nat, env: Scope)
    requires
        n <= m <= es.len(),
        args_error(es, n, env) is Some,
    ensures
        args_error(es, m, env) == args_error(es, n, env),
    decreases m,
{
    if n < m {
        lemma_args_error_found(es, n, (m - 1) as nat, env);
    }
}

pub proof fn lemma_let_error_found<Span>(
    bs: &Vec<(String, Exp<Span>)>,
    n: nat,
    m: nat,
    env: Scope,
    ann: Span,
)
    requires
        n <= m <= bs.len(),
        let_error(bs, n, env, ann) is Some,
    ensures
        let_error(bs, m, env, ann) == let_error(bs, n, env, ann),
    decreases m,
{
    if n < m {
        lemma_let_error_found(bs, n, (m - 1) as nat, env, ann);
    }
}

pub proof fn lemma_decls_error_found<Span>(
    ds: &Vec<FunDecl<Exp<Span>, Span>>,
    n: nat,
    m: nat,
    env: Scope,
)
    requires
        n <= m <= ds.len(),
        decls_error(ds, n, env) is Some,
    ensures
        decls_error(ds, m, env) == decls_error(ds, n, env),
    decreases m,
{
    if n < m {
        lemma_decls_error_found(ds, n, (m - 1) as nat, env);
    }
}

/// The arguments of a call.
pub fn check_args<Span: Clone>(es: &Vec<Exp<Span>>, env: &mut Vec<(String, Kind)>) -> (r: Result<
    (),
    CompileErr<Span>,
>)
    ensures
        agrees(r, args_error(es, es.len() as nat, table_of(old(env)@))),
        final(env)@ == old(env)@,
    decreases es,
{
    let mut i: usize = 0;
    while i < es.len()
        invariant
            i <= es.len(),
            env@ == old(env)@,
            args_error(es, i as nat, table_of(env@)) is None,
        decreases es.len() - i,
    {
        match check_in(&es[i], env) {
            Err(err) => {
                proof {
                    lemma_args_error_found(es, (i + 1) as nat, es.len() as nat, table_of(env@));
                }
                return Err(err);
            },
            Ok(_) => {},
        }
        i += 1;
    }
    Ok(())
}

/// The bindings of a `let` at `ann`; where they are in order, the scope is
/// left extended by them, for the body.
pub fn check_bindings<Span: Clone>(
    bs: &Vec<(String, Exp<Span>)>,
    ann: &Span,
    env: &mut Vec<(String, Kind)>,
) -> (r: Result<(), CompileErr<Span>>)
    ensures
        agrees(r, let_error(bs, bs.len() as nat, table_of(old(env)@), *ann)),
        final(env)@.len() >= old(env)@.len(),
        final(env)@.take(old(env)@.len() as int) == old(env)@,
        r is Ok ==> table_of(final(env)@) == with_vars(table_of(old(env)@), let_names(*bs)),
    decreases bs,
{
    let names = binding_names(bs);
    let ghost start = table_of(env@);
    let ghost ns = let_names(*bs);
    assert(names_of(names@).len() == names.len());
    assert(ns.len() == bs.len());
    let mut i: usize = 0;
    assert(table_of(env@) =~= with_vars(start, ns.take(0)));
    assert(env@.take(old(env)@.len() as int) =~= old(env)@);
    while i < bs.len()
        invariant
            i <= bs.len(),
            ns == let_names(*bs),
            ns == names_of(names@),
            names.len() == bs.len(),
            start == table_of(old(env)@),
            env@.len() == old(env)@.len() + i,
            env@.take(old(env)@.len() as int) == old(env)@,
            table_of(env@) == with_vars(start, ns.take(i as int)),
            let_error(bs, i as nat, start, *ann) is None,
        decreases bs.len() - i,
    {
        assert(ns[i as int] == bs[i as int].0@);
        assert(names[i as int]@ == ns[i as int]);
        if seen_before(&names, i, &names[i]) {
            proof {
                lemma_let_error_found(bs, (i + 1) as nat, bs.len() as nat, start, *ann);
            }
            return Err(
                CompileErr::DuplicateBinding {
                    duplicated_name: bs[i].0.clone(),
                    location: ann.clone(),
                },
            );
        }
        match check_in(&bs[i].1, env) {
            Err(err) => {
                proof {
                    lemma_let_error_found(bs, (i + 1) as nat, bs.len() as nat, start, *ann);
                }
                return Err(err);
            },
            Ok(_) => {},
        }
        let ghost held = env@;
        env.push((bs[i].0.clone(), Kind::Var));
        proof {
            assert(table_of(env@) =~= table_of(held).push((bs[i as int].0@, Kind::Var)));
            assert(with_vars(start, ns.take(i + 1)) =~= with_vars(start, ns.take(i as int)).push(
                (bs[i as int].0@, Kind::Var),
            ));
            assert(env@.take(old(env)@.len() as int) =~= held.take(old(env)@.len() as int));
        }
        i += 1;
    }
    assert(ns.take(bs.len() as int) =~= ns);
    Ok(())
}

/// The functions of a group, under a scope that holds the group.
pub fn check_decls<Span: Clone>(ds: &Vec<FunDecl<Exp<Span>, Span>>, env: &mut Vec<(String, Kind)>) -> (r:
    Result<(), CompileErr<Span>>)
    ensures
        agrees(r, decls_error(ds, ds.len() as nat, table_of(old(env)@))),
        final(env)@ == old(env)@,
    decreases ds,
{
    let mut i: usize = 0;
    while i < ds.len()
        invariant
            i <= ds.len(),
            env@ == old(env)@,
            decls_error(ds, i as nat, table_of(env@)) is None,
        decreases ds.len() - i,
    {
        let d = &ds[i];
        match first_duplicate(&d.parameters) {
            Some(j) => {
                proof {
                    lemma_decls_error_found(ds, (i + 1) as nat, ds.len() as nat, table_of(env@));
                }
                return Err(
                    CompileErr::DuplicateArgName {
                        duplicated_name: d.parameters[j].clone(),
                        location: d.ann.clone(),
                    },
                );
            },
            None => {},
        }
        let len = env.len();
        declare_vars(env, &d.parameters);
        let r = check_in(&d.body, env);
        leave_scope(env, len);
        assert(env@ =~= old(env)@);
        match r {
            Err(err) => {
                proof {
                    lemma_decls_error_found(ds, (i + 1) as nat, ds.len() as nat, table_of(env@));
                }
                return Err(err);
            },
            Ok(_) => {},
        }
        i += 1;
    }
    Ok(())
}

/// The first error of an expression under the scope `env`.
pub fn check_in<Span: Clone>(e: &Exp<Span>, env: &mut Vec<(String, Kind)>) -> (r: Result<
    (),
    CompileErr<Span>,
>)
    ensures
        agrees(r, check_exp(e, table_of(old(env)@))),
        final(env)@ == old(env)@,
    decreases e,
{
    match e {
        Exp::Num(n, ann) => {
            if *n > MAX_INT || *n < MIN_INT {
                Err(CompileErr::Overflow { num: *n, location: ann.clone() })
            } else {
                Ok(())
            }
        },
        Exp::Bool(_, _) => Ok(()),
        Exp::Var(x, ann) => check_var(x, ann, env),
        Exp::Prim(_, es, _) => check_boxed(es, env),
        Exp::Let { bindings, body, ann } => {
            let len = env.len();
            let r = match check_bindings(bindings, ann, env) {
                Err(err) => Err(err),
                Ok(_) => check_in(body, env),
            };
            leave_scope(env, len);
            assert(env@ =~= old(env)@);
            r
        },
        Exp::If { cond, thn, els, .. } => {
            match check_in(cond, env) {
                Err(err) => Err(err),
                Ok(_) => match check_in(thn, env) {
                    Err(err) => Err(err),
                    Ok(_) => check_in(els, env),
                },
            }
        },
        Exp::FunDefs { decls, body, .. } => {
            let names = declared_names(decls);
            assert(names_of(names@) =~= group_names(*decls));
            match first_duplicate(&names) {
                Some(i) => Err(
                    CompileErr::DuplicateFunName {
                        duplicated_name: decls[i].name.clone(),
                        location: decls[i].ann.clone(),
                    },
                ),
                None => {
                    let len = env.len();
                    declare_funs(env, decls);
                    let r = match check_decls(decls, env) {
                        Err(err) => Err(err),
                        Ok(_) => check_in(body, env),
                    };
                    leave_scope(env, len);
                    assert(env@ =~= old(env)@);
                    r
                },
            }
        },
        Exp::Call(f, args, ann) => {
            match check_call(f, args.len(), ann, env) {
                Err(err) => Err(err),
                Ok(_) => check_args(args, env),
            }
        },
        Exp::InternalTailCall(f, args, ann) => {
            match check_call(f, args.len(), ann, env) {
                Err(err) => Err(err),
                Ok(_) => check_args(args, env),
            }
        },
        Exp::ExternalCall { fun_name, args, ann, .. } => {
            match check_call(fun_name, args.len(), ann, env) {
                Err(err) => Err(err),
                Ok(_) => check_args(args, env),
            }
        },
    }
}

/// The first error of a program, which stands in the empty scope.
pub open spec fn program_error<Span>(p: &Exp<Span>) -> Option<(Fault, Span)> {
    check_exp(p, Seq::empty())
}

/// Checks a program: `Ok` where it has no error, else the first error that a
/// walk from left to right meets.
pub fn check_prog<Span>(p: &SurfProg<Span>) -> (r: Result<(), CompileErr<Span>>) where Span: Clone
    ensures
        agrees(r, program_error(p)),
{
    let mut env: Vec<(String, Kind)> = Vec::new();
    assert(table_of(env@) =~= Seq::<(Name, Kind)>::empty());
    check_in(p, &mut env)
}

} // verus!
