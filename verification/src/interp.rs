//! The reference interpreter: an abstract machine with an explicit stack of
//! frames, so that deep programs do not use the native stack. What it prints
//! is gathered in a buffer of text.

use crate::compile::{MAX_INT, MIN_INT};
use crate::names::{find_last, lookup, signed_decimal, signed_decimal_string, table_of};
use crate::syntax::{binding_terms, boxed_terms, decl_terms, Exp, fun_term, FunDecl, FunTerm, Name};
use crate::syntax::{names_of, Prim, SurfProg, Term, terms};
use vstd::prelude::*;

verus! {

/// A value of the language. Closures stand in environments only, under the
/// mangled names of their functions.
#[derive(Clone, Copy, Debug, PartialEq, Eq, Structural)]
pub enum SnakeVal {
    Num(i64),
    Bool(bool),
    Closure(usize),
}

/// A run-time error of the interpreted program.
#[derive(Debug, Clone, PartialEq, Eq)]
pub enum InterpErr {
    ExpectedNum { who: String, got: String, msg: String },
    ExpectedBool { who: String, got: String, msg: String },
    ExpectedFun { who: String, got: String, msg: String },
    Overflow { msg: String },
    Write { msg: String },
    ArityErr { expected_arity: usize, num_provided: usize },
    /// The program is none that the semantic check accepts: it reads a name
    /// that is not bound, or holds a form that only the compiler makes.
    Stuck { msg: String },
    /// The machine has taken as many steps as it was given.
    OutOfFuel,
}

/// A run-time error as the specifications see it.
pub ghost enum InterpFault {
    ExpectedNum { who: Seq<char>, got: Seq<char>, msg: Seq<char> },
    ExpectedBool { who: Seq<char>, got: Seq<char>, msg: Seq<char> },
    ExpectedFun { who: Seq<char>, got: Seq<char>, msg: Seq<char> },
    Overflow { msg: Seq<char> },
    Write { msg: Seq<char> },
    ArityErr { expected_arity: usize, num_provided: usize },
    Stuck { msg: Seq<char> },
    OutOfFuel,
}

impl View for InterpErr {
    type V = InterpFault;

    open spec fn view(&self) -> InterpFault {
        match self {
            InterpErr::ExpectedNum { who, got, msg } => InterpFault::ExpectedNum {
                who: who@,
                got: got@,
                msg: msg@,
            },
            InterpErr::ExpectedBool { who, got, msg } => InterpFault::ExpectedBool {
                who: who@,
                got: got@,
                msg: msg@,
            },
            InterpErr::ExpectedFun { who, got, msg } => InterpFault::ExpectedFun {
                who: who@,
                got: got@,
                msg: msg@,
            },
            InterpErr::Overflow { msg } => InterpFault::Overflow { msg: msg@ },
            InterpErr::Write { msg } => InterpFault::Write { msg: msg@ },
            InterpErr::ArityErr { expected_arity, num_provided } => InterpFault::ArityErr {
                expected_arity: *expected_arity,
                num_provided: *num_provided,
            },
            InterpErr::Stuck { msg } => InterpFault::Stuck { msg: msg@ },
            InterpErr::OutOfFuel => InterpFault::OutOfFuel,
        }
    }
}

/// An environment as the specifications see it: the newest binding last.
pub type EnvView = Seq<(Name, SnakeVal)>;

/// A function with the environment it was defined in.
pub ghost struct ClosureView {
    pub env: EnvView,
    pub decl: FunTerm,
}

/// What is left to do with the value that the machine computes next.
pub ghost enum FrameView {
    Prim1(Prim),
    Prim2L(Prim, Term, EnvView),
    Prim2R(Prim, SnakeVal),
    If(Term, Term, EnvView),
    /// Bind the value to the name, then go on with the bindings left and the body.
    Let(Name, EnvView, Seq<(Name, Term)>, Term),
    /// Add the value to the arguments, then go on with the arguments left.
    CallArgs(usize, Seq<SnakeVal>, EnvView, Seq<Term>),
}

pub ghost enum ControlView {
    Descending(Term, EnvView),
    Returning(SnakeVal),
}

/// A state of the machine.
pub ghost struct Config {
    pub control: ControlView,
    pub stack: Seq<FrameView>,
    pub funs: Seq<ClosureView>,
    pub out: Seq<char>,
}

/// What a step, or a run, comes to. Each end carries all that was printed.
pub ghost enum Outcome {
    Running(Config),
    Finished(Seq<char>),
    Failed(InterpFault, Seq<char>),
}

/// A value as text.
pub open spec fn value_text(v: SnakeVal) -> Seq<char> {
    match v {
        SnakeVal::Num(n) => signed_decimal(n as int),
        SnakeVal::Bool(b) => if b {
            "true"@
        } else {
            "false"@
        },
        SnakeVal::Closure(_) => "closure"@,
    }
}

/// The name under which an environment holds a function.
pub open spec fn mangled(f: Name) -> Name {
    f + "#fun"@
}

/// The number that a value is, or the error of `who` in `msg`.
pub open spec fn num_of(v: SnakeVal, who: Seq<char>, msg: Seq<char>) -> Result<i64, InterpFault> {
    match v {
        SnakeVal::Num(n) => Ok(n),
        _ => Err(InterpFault::ExpectedNum { who, got: value_text(v), msg }),
    }
}

/// The boolean that a value is, or the error of `who` in `msg`.
pub open spec fn bool_of(v: SnakeVal, who: Seq<char>, msg: Seq<char>) -> Result<bool, InterpFault> {
    match v {
        SnakeVal::Bool(b) => Ok(b),
        _ => Err(InterpFault::ExpectedBool { who, got: value_text(v), msg }),
    }
}

/// Whether two values are the same number or the same boolean.
pub open spec fn values_equal(v1: SnakeVal, v2: SnakeVal) -> bool {
    match (v1, v2) {
        (SnakeVal::Bool(b1), SnakeVal::Bool(b2)) => b1 == b2,
        (SnakeVal::Num(n1), SnakeVal::Num(n2)) => n1 == n2,
        _ => false,
    }
}

/// The three arithmetic operations.
#[derive(Clone, Copy, Debug, PartialEq, Eq, Structural)]
pub enum Arith {
    Plus,
    Minus,
    Times,
}

/// The exact result of an arithmetic operation.
pub open spec fn exact(a: Arith, n1: i64, n2: i64) -> int {
    match a {
        Arith::Plus => n1 + n2,
        Arith::Minus => n1 - n2,
        Arith::Times => n1 * n2,
    }
}

/// The result of an arithmetic operation in 64 bits.
pub open spec fn wrapped(a: Arith, n1: i64, n2: i64) -> i64 {
    match a {
        Arith::Plus => n1.wrapping_add(n2),
        Arith::Minus => n1.wrapping_sub(n2),
        Arith::Times => n1.wrapping_mul(n2),
    }
}

/// The message of an overflow: the operation and what it came to in 64 bits.
pub open spec fn overflow_text(a: Arith, n1: i64, n2: i64, op: Seq<char>) -> Seq<char> {
    signed_decimal(n1 as int) + " "@ + op + " "@ + signed_decimal(n2 as int) + " = "@
        + signed_decimal(wrapped(a, n1, n2) as int)
}

/// Arithmetic on two values: both must be numbers, and the exact result
/// must be a number of the language.
pub open spec fn arith_spec(a: Arith, v1: SnakeVal, v2: SnakeVal, op: Seq<char>) -> Result<
    SnakeVal,
    InterpFault,
> {
    match num_of(v1, "arithmetic"@, op) {
        Err(f) => Err(f),
        Ok(n1) => match num_of(v2, "arithmetic"@, op) {
            Err(f) => Err(f),
            Ok(n2) => if MIN_INT <= exact(a, n1, n2) <= MAX_INT {
                Ok(SnakeVal::Num(exact(a, n1, n2) as i64))
            } else {
                Err(InterpFault::Overflow { msg: overflow_text(a, n1, n2, op) })
            },
        },
    }
}

/// A logical operation on two values: both must be booleans.
pub open spec fn log_spec(is_and: bool, v1: SnakeVal, v2: SnakeVal, op: Seq<char>) -> Result<
    SnakeVal,
    InterpFault,
> {
    match bool_of(v1, "logic"@, op) {
        Err(f) => Err(f),
        Ok(b1) => match bool_of(v2, "logic"@, op) {
            Err(f) => Err(f),
            Ok(b2) => Ok(
                SnakeVal::Bool(
                    if is_and {
                        b1 && b2
                    } else {
                        b1 || b2
                    },
                ),
            ),
        },
    }
}

/// What an ordering comparison says of two numbers.
pub open spec fn compare(p: Prim, n1: i64, n2: i64) -> bool {
    match p {
        Prim::Lt => n1 < n2,
        Prim::Le => n1 <= n2,
        Prim::Gt => n1 > n2,
        _ => n1 >= n2,
    }
}

/// An ordering comparison of two values: both must be numbers.
pub open spec fn cmp_spec(p: Prim, v1: SnakeVal, v2: SnakeVal, op: Seq<char>) -> Result<
    SnakeVal,
    InterpFault,
> {
    match num_of(v1, "comparison"@, op) {
        Err(f) => Err(f),
        Ok(n1) => match num_of(v2, "comparison"@, op) {
            Err(f) => Err(f),
            Ok(n2) => Ok(SnakeVal::Bool(compare(p, n1, n2))),
        },
    }
}

pub open spec fn stuck(msg: Seq<char>) -> InterpFault {
    InterpFault::Stuck { msg }
}

/// The value of a unary primitive, other than `print`.
pub open spec fn prim1_spec(p: Prim, v: SnakeVal) -> Result<SnakeVal, InterpFault> {
    match p {
        Prim::Add1 => arith_spec(Arith::Plus, v, SnakeVal::Num(1), "add1"@),
        Prim::Sub1 => arith_spec(Arith::Minus, v, SnakeVal::Num(1), "sub1"@),
        Prim::Not => match bool_of(v, "logic"@, "!"@) {
            Err(f) => Err(f),
            Ok(b) => Ok(SnakeVal::Bool(!b)),
        },
        Prim::Print => Ok(v),
        Prim::IsBool => Ok(SnakeVal::Bool(v is Bool)),
        Prim::IsNum => Ok(SnakeVal::Bool(v is Num)),
        _ => Err(stuck("not a unary primitive"@)),
    }
}

/// The value of a binary primitive.
pub open spec fn prim2_spec(p: Prim, v1: SnakeVal, v2: SnakeVal) -> Result<SnakeVal, InterpFault> {
    match p {
        Prim::Add => arith_spec(Arith::Plus, v1, v2, "+"@),
        Prim::Sub => arith_spec(Arith::Minus, v1, v2, "-"@),
        Prim::Mul => arith_spec(Arith::Times, v1, v2, "*"@),
        Prim::And => log_spec(true, v1, v2, "&&"@),
        Prim::Or => log_spec(false, v1, v2, "||"@),
        Prim::Lt => cmp_spec(p, v1, v2, "<"@),
        Prim::Le => cmp_spec(p, v1, v2, "<="@),
        Prim::Gt => cmp_spec(p, v1, v2, ">"@),
        Prim::Ge => cmp_spec(p, v1, v2, ">="@),
        Prim::Eq => Ok(SnakeVal::Bool(values_equal(v1, v2))),
        Prim::Neq => Ok(SnakeVal::Bool(!values_equal(v1, v2))),
        _ => Err(stuck("not a binary primitive"@)),
    }
}

/// The line that printing a value adds.
pub open spec fn printed(v: SnakeVal) -> Seq<char> {
    (match v {
        SnakeVal::Closure(_) => "<closure>"@,
        _ => value_text(v),
    }) + "\n"@
}

/// An environment extended by one binding for each parameter.
pub open spec fn bind_params(env: EnvView, params: Seq<Name>, args: Seq<SnakeVal>) -> EnvView {
    env + Seq::new(params.len(), |i: int| (params[i], args[i]))
}

/// An environment extended by the closures of a group, which are numbered
/// from `first`.
pub open spec fn bind_group(env: EnvView, ds: Seq<FunTerm>, first: nat) -> EnvView {
    env + Seq::new(ds.len(), |j: int| (mangled(ds[j].name), SnakeVal::Closure((first + j) as usize)))
}

/// The closures of a group, each with the environment that holds the group.
pub open spec fn group_closures(env: EnvView, ds: Seq<FunTerm>) -> Seq<ClosureView> {
    Seq::new(ds.len(), |j: int| ClosureView { env, decl: ds[j] })
}

/// The machine goes on with the body of a called function.
pub open spec fn call_spec(
    fun: usize,
    args: Seq<SnakeVal>,
    stack: Seq<FrameView>,
    funs: Seq<ClosureView>,
    out: Seq<char>,
) -> Outcome {
    if fun >= funs.len() {
        Outcome::Failed(stuck("no such closure"@), out)
    } else if args.len() != funs[fun as int].decl.params.len() {
        Outcome::Failed(
            InterpFault::ArityErr {
                expected_arity: funs[fun as int].decl.params.len() as usize,
                num_provided: args.len() as usize,
            },
            out,
        )
    } else {
        Outcome::Running(
            Config {
                control: ControlView::Descending(
                    funs[fun as int].decl.body,
                    bind_params(funs[fun as int].env, funs[fun as int].decl.params, args),
                ),
                stack,
                funs,
                out,
            },
        )
    }
}

/// A step that starts on an expression.
pub open spec fn descend_spec(
    t: Term,
    env: EnvView,
    stack: Seq<FrameView>,
    funs: Seq<ClosureView>,
    out: Seq<char>,
) -> Outcome {
    match t {
        Term::Num(n) => Outcome::Running(
            Config { control: ControlView::Returning(SnakeVal::Num(n)), stack, funs, out },
        ),
        Term::Bool(b) => Outcome::Running(
            Config { control: ControlView::Returning(SnakeVal::Bool(b)), stack, funs, out },
        ),
        Term::Var(x) => match lookup(env, x) {
            Some(v) => Outcome::Running(
                Config { control: ControlView::Returning(v), stack, funs, out },
            ),
            None => Outcome::Failed(stuck("unbound variable"@), out),
        },
        Term::Prim(p, args) => if args.len() != p.arity() {
            Outcome::Failed(stuck("malformed primitive"@), out)
        } else if p.arity() == 1 {
            Outcome::Running(
                Config {
                    control: ControlView::Descending(args[0], env),
                    stack: stack.push(FrameView::Prim1(p)),
                    funs,
                    out,
                },
            )
        } else {
            Outcome::Running(
                Config {
                    control: ControlView::Descending(args[0], env),
                    stack: stack.push(FrameView::Prim2L(p, args[1], env)),
                    funs,
                    out,
                },
            )
        },
        Term::Let(bs, body) => if bs.len() == 0 {
            Outcome::Running(
                Config { control: ControlView::Descending(*body, env), stack, funs, out },
            )
        } else {
            Outcome::Running(
                Config {
                    control: ControlView::Descending(bs[0].1, env),
                    stack: stack.push(FrameView::Let(bs[0].0, env, bs.skip(1), *body)),
                    funs,
                    out,
                },
            )
        },
        Term::If(c, a, b) => Outcome::Running(
            Config {
                control: ControlView::Descending(*c, env),
                stack: stack.push(FrameView::If(*a, *b, env)),
                funs,
                out,
            },
        ),
        Term::FunDefs(ds, body) => if funs.len() + ds.len() > usize::MAX {
            Outcome::Failed(stuck("too many functions"@), out)
        } else {
            let inner = bind_group(env, ds, funs.len());
            Outcome::Running(
                Config {
                    control: ControlView::Descending(*body, inner),
                    stack,
                    funs: funs + group_closures(inner, ds),
                    out,
                },
            )
        },
        Term::Call(f, args) => match lookup(env, mangled(f)) {
            Some(SnakeVal::Closure(fun)) => if args.len() == 0 {
                call_spec(fun, Seq::empty(), stack, funs, out)
            } else {
                Outcome::Running(
                    Config {
                        control: ControlView::Descending(args[0], env),
                        stack: stack.push(
                            FrameView::CallArgs(fun, Seq::empty(), env, args.skip(1)),
                        ),
                        funs,
                        out,
                    },
                )
            },
            _ => Outcome::Failed(stuck("unbound function"@), out),
        },
        _ => Outcome::Failed(stuck("internal compiler form"@), out),
    }
}

/// A step that starts on a value: it goes to the newest frame, or ends the
/// run, where no frame is left, by printing it.
pub open spec fn return_spec(
    v: SnakeVal,
    stack: Seq<FrameView>,
    funs: Seq<ClosureView>,
    out: Seq<char>,
) -> Outcome {
    if stack.len() == 0 {
        Outcome::Finished(out + printed(v))
    } else {
        let rest = stack.drop_last();
        match stack.last() {
            FrameView::Prim1(p) => {
                let out1 = if p == Prim::Print {
                    out + printed(v)
                } else {
                    out
                };
                match prim1_spec(p, v) {
                    Ok(r) => Outcome::Running(
                        Config { control: ControlView::Returning(r), stack: rest, funs, out: out1 },
                    ),
                    Err(f) => Outcome::Failed(f, out1),
                }
            },
            FrameView::Prim2L(p, e2, env) => Outcome::Running(
                Config {
                    control: ControlView::Descending(e2, env),
                    stack: rest.push(FrameView::Prim2R(p, v)),
                    funs,
                    out,
                },
            ),
            FrameView::Prim2R(p, vl) => match prim2_spec(p, vl, v) {
                Ok(r) => Outcome::Running(
                    Config { control: ControlView::Returning(r), stack: rest, funs, out },
                ),
                Err(f) => Outcome::Failed(f, out),
            },
            FrameView::If(a, b, env) => match bool_of(v, "if"@, "if"@) {
                Ok(c) => Outcome::Running(
                    Config {
                        control: ControlView::Descending(
                            if c {
                                a
                            } else {
                                b
                            },
                            env,
                        ),
                        stack: rest,
                        funs,
                        out,
                    },
                ),
                Err(f) => Outcome::Failed(f, out),
            },
            FrameView::Let(x, env, bs, body) => {
                let env1 = env.push((x, v));
                if bs.len() == 0 {
                    Outcome::Running(
                        Config {
                            control: ControlView::Descending(body, env1),
                            stack: rest,
                            funs,
                            out,
                        },
                    )
                } else {
                    Outcome::Running(
                        Config {
                            control: ControlView::Descending(bs[0].1, env1),
                            stack: rest.push(FrameView::Let(bs[0].0, env1, bs.skip(1), body)),
                            funs,
                            out,
                        },
                    )
                }
            },
            FrameView::CallArgs(fun, done, env, left) => {
                let done1 = done.push(v);
                if left.len() == 0 {
                    call_spec(fun, done1, rest, funs, out)
                } else {
                    Outcome::Running(
                        Config {
                            control: ControlView::Descending(left[0], env),
                            stack: rest.push(FrameView::CallArgs(fun, done1, env, left.skip(1))),
                            funs,
                            out,
                        },
                    )
                }
            },
        }
    }
}

/// One step of the machine.
pub open spec fn step(c: Config) -> Outcome {
    match c.control {
        ControlView::Descending(t, env) => descend_spec(t, env, c.stack, c.funs, c.out),
        ControlView::Returning(v) => return_spec(v, c.stack, c.funs, c.out),
    }
}

/// At most `fuel` steps of the machine.
pub open spec fn run(c: Config, fuel: nat) -> Outcome
    decreases fuel,
{
    if fuel == 0 {
        Outcome::Failed(InterpFault::OutOfFuel, c.out)
    } else {
        match step(c) {
            Outcome::Running(next) => run(next, (fuel - 1) as nat),
            end => end,
        }
    }
}

/// The state in which the machine starts on a program: nothing is bound, no
/// frame waits, and `out` was printed before.
pub open spec fn start(t: Term, out: Seq<char>) -> Config {
    Config {
        control: ControlView::Descending(t, Seq::empty()),
        stack: Seq::empty(),
        funs: Seq::empty(),
        out,
    }
}

/// What interpreting a program with `fuel` steps comes to.
pub open spec fn interpret(t: Term, out: Seq<char>, fuel: nat) -> Outcome {
    run(start(t, out), fuel)
}

/// An environment: the newest binding last.
pub type Env = Vec<(String, SnakeVal)>;

/// What is left to do with the value that the machine computes next. A
/// `Let` frame waits for the value of the binding at `at`, a `CallArgs`
/// frame for that of the argument at `at`.
pub enum Frame<'exp, Ann> {
    Prim1(Prim),
    Prim2L(Prim, &'exp Exp<Ann>, Env),
    Prim2R(Prim, SnakeVal),
    If { thn: &'exp Exp<Ann>, els: &'exp Exp<Ann>, env: Env },
    Let { bindings: &'exp Vec<(String, Exp<Ann>)>, at: usize, body: &'exp Exp<Ann>, env: Env },
    CallArgs {
        fun: usize,
        evaled_args: Vec<SnakeVal>,
        args: &'exp Vec<Exp<Ann>>,
        at: usize,
        env: Env,
    },
}

/// What the machine does next: it starts on an expression, or hands a value
/// to the newest frame.
pub enum Machine<'exp, Ann> {
    Descending { e: &'exp Exp<Ann>, env: Env },
    Returning { v: SnakeVal },
}

/// The closures allocated so far.
pub struct State<'e, Ann> {
    pub funs: Vec<(Env, &'e FunDecl<Exp<Ann>, Ann>)>,
}

impl<'exp, Ann> Frame<'exp, Ann> {
    pub open spec fn well_formed(self) -> bool {
        match self {
            Frame::Let { bindings, at, .. } => at < bindings.len(),
            Frame::CallArgs { args, at, .. } => at < args.len(),
            _ => true,
        }
    }
}

impl<'exp, Ann> View for Frame<'exp, Ann> {
    type V = FrameView;

    open spec fn view(&self) -> FrameView {
        match self {
            Frame::Prim1(p) => FrameView::Prim1(*p),
            Frame::Prim2L(p, e, env) => FrameView::Prim2L(*p, e@, table_of(env@)),
            Frame::Prim2R(p, v) => FrameView::Prim2R(*p, *v),
            Frame::If { thn, els, env } => FrameView::If(thn@, els@, table_of(env@)),
            Frame::Let { bindings, at, body, env } => FrameView::Let(
                bindings[*at as int].0@,
                table_of(env@),
                binding_terms(**bindings).skip(*at + 1),
                body@,
            ),
            Frame::CallArgs { fun, evaled_args, args, at, env } => FrameView::CallArgs(
                *fun,
                evaled_args@,
                table_of(env@),
                terms(**args).skip(*at + 1),
            ),
        }
    }
}

impl<'exp, Ann> View for Machine<'exp, Ann> {
    type V = ControlView;

    open spec fn view(&self) -> ControlView {
        match self {
            Machine::Descending { e, env } => ControlView::Descending(e@, table_of(env@)),
            Machine::Returning { v } => ControlView::Returning(*v),
        }
    }
}

/// The frames that a stack holds.
pub open spec fn frames_of<'exp, Ann>(stack: Seq<Frame<'exp, Ann>>) -> Seq<FrameView> {
    Seq::new(stack.len(), |i: int| stack[i]@)
}

pub open spec fn stack_wf<'exp, Ann>(stack: Seq<Frame<'exp, Ann>>) -> bool {
    forall|i: int| 0 <= i < stack.len() ==> (#[trigger] stack[i]).well_formed()
}

/// The closures that a state holds.
pub open spec fn closures_of<'e, Ann>(funs: Seq<(Env, &'e FunDecl<Exp<Ann>, Ann>)>) -> Seq<
    ClosureView,
> {
    Seq::new(funs.len(), |i: int| ClosureView { env: table_of(funs[i].0@), decl: fun_term(*funs[i].1) })
}

/// Whether a result reports what the specification names.
pub open spec fn same<T>(r: Result<T, InterpErr>, want: Result<T, InterpFault>) -> bool {
    match (r, want) {
        (Ok(a), Ok(b)) => a == b,
        (Err(e), Err(f)) => e@ == f,
        _ => false,
    }
}

/// Whether what a step left behind is what the specification names.
pub open spec fn step_matches<'exp, Ann>(
    r: Result<Option<Machine<'exp, Ann>>, InterpErr>,
    stack: Seq<Frame<'exp, Ann>>,
    funs: Seq<(Env, &'exp FunDecl<Exp<Ann>, Ann>)>,
    out: Seq<char>,
    want: Outcome,
) -> bool {
    match want {
        Outcome::Running(c) => {
            &&& r matches Ok(Some(m))
            &&& m@ == c.control
            &&& frames_of(stack) == c.stack
            &&& closures_of(funs) == c.funs
            &&& out == c.out
            &&& stack_wf(stack)
        },
        Outcome::Finished(s) => r matches Ok(None) && out == s,
        Outcome::Failed(f, s) => r matches Err(e) && e@ == f && out == s,
    }
}

/// Whether the end of a run is what the specification names.
pub open spec fn run_matches(r: Result<(), InterpErr>, out: Seq<char>, want: Outcome) -> bool {
    match want {
        Outcome::Running(_) => false,
        Outcome::Finished(s) => r is Ok && out == s,
        Outcome::Failed(f, s) => r matches Err(e) && e@ == f && out == s,
    }
}

impl<'e, Ann> State<'e, Ann> {
    pub fn new() -> (s: Self)
        ensures
            s.funs@.len() == 0,
    {
        State { funs: Vec::new() }
    }
}

/// A copy of an environment.
pub fn copy_env(env: &Env) -> (r: Env)
    ensures
        r@ == env@,
{
    let mut out: Env = Vec::new();
    let mut i: usize = 0;
    while i < env.len()
        invariant
            i <= env.len(),
            out@ == env@.take(i as int),
        decreases env.len() - i,
    {
        out.push((env[i].0.clone(), env[i].1));
        assert(env@.take(i + 1) =~= env@.take(i as int).push(env@[i as int]));
        i += 1;
    }
    assert(env@.take(env.len() as int) =~= env@);
    out
}

/// The environment with one more binding.
pub fn push_local(env: Env, name: String, v: SnakeVal) -> (r: Env)
    ensures
        table_of(r@) == table_of(env@).push((name@, v)),
{
    let mut env = env;
    let ghost before = table_of(env@);
    env.push((name, v));
    assert(table_of(env@) =~= before.push((name@, v)));
    env
}

/// The newest binding of `x`.
pub fn get(stk: &Env, x: &String) -> (r: Option<SnakeVal>)
    ensures
        r == lookup(table_of(stk@), x@),
{
    match find_last(stk, x) {
        Some(i) => Some(stk[i].1),
        None => None,
    }
}

/// A value as text.
pub fn value_to_string(v: SnakeVal) -> (s: String)
    ensures
        s@ == value_text(v),
{
    match v {
        SnakeVal::Num(n) => signed_decimal_string(n),
        SnakeVal::Bool(b) => if b {
            String::from_str("true")
        } else {
            String::from_str("false")
        },
        SnakeVal::Closure(_) => String::from_str("closure"),
    }
}

/// The name under which an environment holds the function `s`.
pub fn mangle_fun_name(s: &String) -> (r: String)
    ensures
        r@ == mangled(s@),
{
    let mut r = s.clone();
    r.append("#fun");
    r
}

/// The error of a program that the semantic check would not accept.
pub fn stuck_error(msg: &str) -> (e: InterpErr)
    ensures
        e@ == stuck(msg@),
{
    InterpErr::Stuck { msg: String::from_str(msg) }
}

/// The boolean that a value is.
pub fn bool(v: SnakeVal, who: &str, msg: &str) -> (r: Result<bool, InterpErr>)
    ensures
        same(r, bool_of(v, who@, msg@)),
{
    match v {
        SnakeVal::Bool(b) => Ok(b),
        _ => Err(
            InterpErr::ExpectedBool {
                who: String::from_str(who),
                got: value_to_string(v),
                msg: String::from_str(msg),
            },
        ),
    }
}

/// The number that a value is.
pub fn num(v: SnakeVal, who: &str, msg: &str) -> (r: Result<i64, InterpErr>)
    ensures
        same(r, num_of(v, who@, msg@)),
{
    match v {
        SnakeVal::Num(n) => Ok(n),
        _ => Err(
            InterpErr::ExpectedNum {
                who: String::from_str(who),
                got: value_to_string(v),
                msg: String::from_str(msg),
            },
        ),
    }
}

/// Prints a value and a line break.
pub fn print_snake_val(w: &mut String, v: SnakeVal)
    ensures
        final(w)@ == old(w)@ + printed(v),
{
    match v {
        SnakeVal::Closure(_) => {
            w.append("<closure>");
            w.append("\n");
            assert(w@ =~= old(w)@ + ("<closure>"@ + "\n"@));
        },
        _ => {
            let text = value_to_string(v);
            w.append(text.as_str());
            w.append("\n");
            assert(w@ =~= old(w)@ + (value_text(v) + "\n"@));
        },
    }
}

/// Whether two values are the same number or the same boolean.
pub fn equal_snake_val(v1: &SnakeVal, v2: &SnakeVal) -> (r: bool)
    ensures
        r == values_equal(*v1, *v2),
{
    match (v1, v2) {
        (SnakeVal::Bool(b1), SnakeVal::Bool(b2)) => *b1 == *b2,
        (SnakeVal::Num(n1), SnakeVal::Num(n2)) => *n1 == *n2,
        _ => false,
    }
}

/// Whether a number is outside the 63 bits of a number of the language.
pub fn out_of_bounds(n: i64) -> (r: bool)
    ensures
        r == (n > MAX_INT || n < MIN_INT),
{
    n > MAX_INT || n < MIN_INT
}

/// The message of an overflow.
pub fn overflow_message(a: Arith, n1: i64, n2: i64, op: &str) -> (s: String)
    ensures
        s@ == overflow_text(a, n1, n2, op@),
{
    let n3 = match a {
        Arith::Plus => n1.wrapping_add(n2),
        Arith::Minus => n1.wrapping_sub(n2),
        Arith::Times => n1.wrapping_mul(n2),
    };
    let mut s = signed_decimal_string(n1);
    s.append(" ");
    s.append(op);
    s.append(" ");
    let second = signed_decimal_string(n2);
    s.append(second.as_str());
    s.append(" = ");
    let third = signed_decimal_string(n3);
    s.append(third.as_str());
    s
}

/// Arithmetic on two values.
pub fn snake_arith(v1: SnakeVal, v2: SnakeVal, a: Arith, op: &str) -> (r: Result<
    SnakeVal,
    InterpErr,
>)
    ensures
        same(r, arith_spec(a, v1, v2, op@)),
{
    let n1 = match num(v1, "arithmetic", op) {
        Ok(n) => n,
        Err(e) => {
            return Err(e);
        },
    };
    let n2 = match num(v2, "arithmetic", op) {
        Ok(n) => n,
        Err(e) => {
            return Err(e);
        },
    };
    let n3 = match a {
        Arith::Plus => n1.checked_add(n2),
        Arith::Minus => n1.checked_sub(n2),
        Arith::Times => n1.checked_mul(n2),
    };
    match n3 {
        Some(n) => {
            if out_of_bounds(n) {
                Err(InterpErr::Overflow { msg: overflow_message(a, n1, n2, op) })
            } else {
                Ok(SnakeVal::Num(n))
            }
        },
        None => Err(InterpErr::Overflow { msg: overflow_message(a, n1, n2, op) }),
    }
}

/// A logical operation on two values.
pub fn snake_log(v1: SnakeVal, v2: SnakeVal, is_and: bool, op: &str) -> (r: Result<
    SnakeVal,
    InterpErr,
>)
    ensures
        same(r, log_spec(is_and, v1, v2, op@)),
{
    let b1 = match bool(v1, "logic", op) {
        Ok(b) => b,
        Err(e) => {
            return Err(e);
        },
    };
    let b2 = match bool(v2, "logic", op) {
        Ok(b) => b,
        Err(e) => {
            return Err(e);
        },
    };
    if is_and {
        Ok(SnakeVal::Bool(b1 && b2))
    } else {
        Ok(SnakeVal::Bool(b1 || b2))
    }
}

/// An ordering comparison of two values.
pub fn snake_cmp(v1: SnakeVal, v2: SnakeVal, p: Prim, op: &str) -> (r: Result<SnakeVal, InterpErr>)
    ensures
        same(r, cmp_spec(p, v1, v2, op@)),
{
    let n1 = match num(v1, "comparison", op) {
        Ok(n) => n,
        Err(e) => {
            return Err(e);
        },
    };
    let n2 = match num(v2, "comparison", op) {
        Ok(n) => n,
        Err(e) => {
            return Err(e);
        },
    };
    let b = match p {
        Prim::Lt => n1 < n2,
        Prim::Le => n1 <= n2,
        Prim::Gt => n1 > n2,
        _ => n1 >= n2,
    };
    Ok(SnakeVal::Bool(b))
}

/// The value of a unary primitive; `print` adds a line to `w`.
pub fn interpret_prim1(p: &Prim, w: &mut String, v: SnakeVal) -> (r: Result<SnakeVal, InterpErr>)
    ensures
        same(r, prim1_spec(*p, v)),
        final(w)@ == (if *p == Prim::Print {
            old(w)@ + printed(v)
        } else {
            old(w)@
        }),
{
    match p {
        Prim::Add1 => snake_arith(v, SnakeVal::Num(1), Arith::Plus, "add1"),
        Prim::Sub1 => snake_arith(v, SnakeVal::Num(1), Arith::Minus, "sub1"),
        Prim::Not => match bool(v, "logic", "!") {
            Ok(b) => Ok(SnakeVal::Bool(!b)),
            Err(e) => Err(e),
        },
        Prim::Print => {
            print_snake_val(w, v);
            Ok(v)
        },
        Prim::IsBool => match v {
            SnakeVal::Bool(_) => Ok(SnakeVal::Bool(true)),
            _ => Ok(SnakeVal::Bool(false)),
        },
        Prim::IsNum => match v {
            SnakeVal::Num(_) => Ok(SnakeVal::Bool(true)),
            _ => Ok(SnakeVal::Bool(false)),
        },
        _ => Err(stuck_error("not a unary primitive")),
    }
}

/// The value of a binary primitive.
pub fn interpret_prim2(p: &Prim, v1: SnakeVal, v2: SnakeVal) -> (r: Result<SnakeVal, InterpErr>)
    ensures
        same(r, prim2_spec(*p, v1, v2)),
{
    match p {
        Prim::Add => snake_arith(v1, v2, Arith::Plus, "+"),
        Prim::Sub => snake_arith(v1, v2, Arith::Minus, "-"),
        Prim::Mul => snake_arith(v1, v2, Arith::Times, "*"),
        Prim::And => snake_log(v1, v2, true, "&&"),
        Prim::Or => snake_log(v1, v2, false, "||"),
        Prim::Lt => snake_cmp(v1, v2, *p, "<"),
        Prim::Le => snake_cmp(v1, v2, *p, "<="),
        Prim::Gt => snake_cmp(v1, v2, *p, ">"),
        Prim::Ge => snake_cmp(v1, v2, *p, ">="),
        Prim::Eq => Ok(SnakeVal::Bool(equal_snake_val(&v1, &v2))),
        Prim::Neq => Ok(SnakeVal::Bool(!equal_snake_val(&v1, &v2))),
        _ => Err(stuck_error("not a binary primitive")),
    }
}

/// Adds a frame to the stack.
pub fn push_frame<'exp, Ann>(stack: &mut Vec<Frame<'exp, Ann>>, f: Frame<'exp, Ann>)
    requires
        stack_wf(old(stack)@),
        f.well_formed(),
    ensures
        stack_wf(final(stack)@),
        frames_of(final(stack)@) == frames_of(old(stack)@).push(f@),
{
    stack.push(f);
    assert(frames_of(stack@) =~= frames_of(old(stack)@).push(f@));
}

/// The machine goes on with the body of a called function.
pub fn call<'exp, Ann>(
    fun: usize,
    args: Vec<SnakeVal>,
    funs: &Vec<(Env, &'exp FunDecl<Exp<Ann>, Ann>)>,
) -> (r: Result<Machine<'exp, Ann>, InterpErr>)
    ensures
        forall|stack: Seq<FrameView>, out: Seq<char>|
            match #[trigger] call_spec(fun, args@, stack, closures_of(funs@), out) {
                Outcome::Running(c) => r matches Ok(m) && m@ == c.control,
                Outcome::Failed(f, _) => r matches Err(e) && e@ == f,
                Outcome::Finished(_) => false,
            },
{
    if fun >= funs.len() {
        return Err(stuck_error("no such closure"));
    }
    let d = funs[fun].1;
    assert(closures_of(funs@)[fun as int].decl == fun_term(*d));
    assert(fun_term(*d).params.len() == d.parameters.len());
    if args.len() != d.parameters.len() {
        return Err(
            InterpErr::ArityErr { expected_arity: d.parameters.len(), num_provided: args.len() },
        );
    }
    let mut env = copy_env(&funs[fun].0);
    let ghost base = table_of(env@);
    let ghost params = names_of(d.parameters@);
    let mut i: usize = 0;
    assert(table_of(env@) =~= bind_params(base, params.take(0), args@));
    while i < args.len()
        invariant
            i <= args.len(),
            args.len() == d.parameters.len(),
            params == names_of(d.parameters@),
            table_of(env@) == base + Seq::new(i as nat, |k: int| (params[k], args@[k])),
        decreases args.len() - i,
    {
        let ghost held = table_of(env@);
        env = push_local(env, d.parameters[i].clone(), args[i]);
        assert(table_of(env@) =~= base + Seq::new((i + 1) as nat, |k: int| (params[k], args@[k])));
        i += 1;
    }
    assert(table_of(env@) =~= bind_params(base, params, args@));
    Ok(Machine::Descending { e: &d.body, env })
}

/// Allocates the closures of a group, and returns the environment that
/// holds them, which each of them captures.
pub fn alloc_funs<'e, Ann>(
    decls: &'e Vec<FunDecl<Exp<Ann>, Ann>>,
    env: Env,
    funs: &mut Vec<(Env, &'e FunDecl<Exp<Ann>, Ann>)>,
) -> (r: Env)
    requires
        old(funs).len() + decls.len() <= usize::MAX,
    ensures
        table_of(r@) == bind_group(table_of(env@), decl_terms(*decls), old(funs).len() as nat),
        closures_of(final(funs)@) == closures_of(old(funs)@) + group_closures(
            table_of(r@),
            decl_terms(*decls),
        ),
{
    let first = funs.len();
    let mut env = env;
    let ghost base = table_of(env@);
    let ghost ds = decl_terms(*decls);
    let mut j: usize = 0;
    assert(table_of(env@) =~= bind_group(base, ds.take(0), first as nat));
    while j < decls.len()
        invariant
            j <= decls.len(),
            first + decls.len() <= usize::MAX,
            ds == decl_terms(*decls),
            table_of(env@) == bind_group(base, ds.take(j as int), first as nat),
        decreases decls.len() - j,
    {
        let name = mangle_fun_name(&decls[j].name);
        env = push_local(env, name, SnakeVal::Closure(first + j));
        proof {
            assert(ds[j as int] == fun_term(decls[j as int]));
            assert(bind_group(base, ds.take(j + 1), first as nat) =~= bind_group(
                base,
                ds.take(j as int),
                first as nat,
            ).push((mangled(ds[j as int].name), SnakeVal::Closure((first + j) as usize))));
        }
        j += 1;
    }
    assert(ds.take(decls.len() as int) =~= ds);
    let ghost start = closures_of(funs@);
    let mut k: usize = 0;
    assert(closures_of(funs@) =~= start + group_closures(table_of(env@), ds.take(0)));
    while k < decls.len()
        invariant
            k <= decls.len(),
            ds == decl_terms(*decls),
            closures_of(funs@) == start + group_closures(table_of(env@), ds.take(k as int)),
        decreases decls.len() - k,
    {
        let ghost held = closures_of(funs@);
        let captured = copy_env(&env);
        funs.push((captured, &decls[k]));
        proof {
            assert(ds[k as int] == fun_term(decls[k as int]));
            assert(closures_of(funs@) =~= held.push(
                ClosureView { env: table_of(env@), decl: ds[k as int] },
            ));
            assert(group_closures(table_of(env@), ds.take(k + 1)) =~= group_closures(
                table_of(env@),
                ds.take(k as int),
            ).push(ClosureView { env: table_of(env@), decl: ds[k as int] }));
        }
        k += 1;
    }
    assert(ds.take(decls.len() as int) =~= ds);
    env
}

/// A step that starts on an expression.
pub fn descend<'exp, Ann>(
    e: &'exp Exp<Ann>,
    env: Env,
    stack: &mut Vec<Frame<'exp, Ann>>,
    funs: &mut Vec<(Env, &'exp FunDecl<Exp<Ann>, Ann>)>,
    buf: &String,
) -> (r: Result<Option<Machine<'exp, Ann>>, InterpErr>)
    requires
        stack_wf(old(stack)@),
    ensures
        step_matches(
            r,
            final(stack)@,
            final(funs)@,
            buf@,
            descend_spec(
                e@,
                table_of(env@),
                frames_of(old(stack)@),
                closures_of(old(funs)@),
                buf@,
            ),
        ),
{
    match e {
        Exp::Num(n, _) => Ok(Some(Machine::Returning { v: SnakeVal::Num(*n) })),
        Exp::Bool(b, _) => Ok(Some(Machine::Returning { v: SnakeVal::Bool(*b) })),
        Exp::Var(x, _) => match get(&env, x) {
            Some(v) => Ok(Some(Machine::Returning { v })),
            None => Err(stuck_error("unbound variable")),
        },
        Exp::Prim(op, es, _) => {
            assert(boxed_terms(*es).len() == es.len());
            if es.len() != op.operand_count() {
                Err(stuck_error("malformed primitive"))
            } else if op.operand_count() == 1 {
                assert(boxed_terms(*es)[0] == es[0].term());
                push_frame(stack, Frame::Prim1(*op));
                Ok(Some(Machine::Descending { e: &*es[0], env }))
            } else {
                assert(boxed_terms(*es)[0] == es[0].term());
                assert(boxed_terms(*es)[1] == es[1].term());
                push_frame(stack, Frame::Prim2L(*op, &*es[1], copy_env(&env)));
                Ok(Some(Machine::Descending { e: &*es[0], env }))
            }
        },
        Exp::Let { bindings, body, .. } => {
            assert(binding_terms(*bindings).len() == bindings.len());
            if bindings.len() == 0 {
                Ok(Some(Machine::Descending { e: &**body, env }))
            } else {
                assert(binding_terms(*bindings)[0] == (bindings[0].0@, bindings[0].1.term()));
                push_frame(
                    stack,
                    Frame::Let { bindings, at: 0, body: &**body, env: copy_env(&env) },
                );
                Ok(Some(Machine::Descending { e: &bindings[0].1, env }))
            }
        },
        Exp::If { cond, thn, els, .. } => {
            push_frame(stack, Frame::If { thn: &**thn, els: &**els, env: copy_env(&env) });
            Ok(Some(Machine::Descending { e: &**cond, env }))
        },
        Exp::Call(fun, args, _) => {
            assert(terms(*args).len() == args.len());
            match get(&env, &mangle_fun_name(fun)) {
                Some(SnakeVal::Closure(ix)) => {
                    if args.len() == 0 {
                        assert(terms(*args) =~= Seq::<Term>::empty());
                        match call(ix, Vec::new(), funs) {
                            Ok(m) => Ok(Some(m)),
                            Err(err) => Err(err),
                        }
                    } else {
                        assert(terms(*args)[0] == args[0].term());
                        push_frame(
                            stack,
                            Frame::CallArgs {
                                fun: ix,
                                evaled_args: Vec::new(),
                                args,
                                at: 0,
                                env: copy_env(&env),
                            },
                        );
                        Ok(Some(Machine::Descending { e: &args[0], env }))
                    }
                },
                _ => Err(stuck_error("unbound function")),
            }
        },
        Exp::FunDefs { decls, body, .. } => {
            assert(decl_terms(*decls).len() == decls.len());
            if decls.len() > usize::MAX - funs.len() {
                Err(stuck_error("too many functions"))
            } else {
                let inner = alloc_funs(decls, env, funs);
                Ok(Some(Machine::Descending { e: &**body, env: inner }))
            }
        },
        Exp::InternalTailCall(_, _, _) => Err(stuck_error("internal compiler form")),
        Exp::ExternalCall { .. } => Err(stuck_error("internal compiler form")),
    }
}

/// A step that starts on a value.
pub fn resume<'exp, Ann>(
    v: SnakeVal,
    stack: &mut Vec<Frame<'exp, Ann>>,
    funs: &mut Vec<(Env, &'exp FunDecl<Exp<Ann>, Ann>)>,
    buf: &mut String,
) -> (r: Result<Option<Machine<'exp, Ann>>, InterpErr>)
    requires
        stack_wf(old(stack)@),
    ensures
        step_matches(
            r,
            final(stack)@,
            final(funs)@,
            final(buf)@,
            return_spec(v, frames_of(old(stack)@), closures_of(old(funs)@), old(buf)@),
        ),
{
    let ghost frames = frames_of(stack@);
    let top = stack.pop();
    proof {
        if frames.len() > 0 {
            assert(frames_of(stack@) =~= frames.drop_last());
        }
    }
    match top {
        None => {
            print_snake_val(buf, v);
            Ok(None)
        },
        Some(frame) => {
            assert(frame@ == frames.last());
            assert(frame.well_formed());
            match frame {
                Frame::Prim1(op) => match interpret_prim1(&op, buf, v) {
                    Ok(r) => Ok(Some(Machine::Returning { v: r })),
                    Err(err) => Err(err),
                },
                Frame::Prim2L(op, e2, env) => {
                    push_frame(stack, Frame::Prim2R(op, v));
                    Ok(Some(Machine::Descending { e: e2, env }))
                },
                Frame::Prim2R(op, vl) => match interpret_prim2(&op, vl, v) {
                    Ok(r) => Ok(Some(Machine::Returning { v: r })),
                    Err(err) => Err(err),
                },
                Frame::If { thn, els, env } => match bool(v, "if", "if") {
                    Ok(c) => Ok(
                        Some(
                            Machine::Descending {
                                e: if c {
                                    thn
                                } else {
                                    els
                                },
                                env,
                            },
                        ),
                    ),
                    Err(err) => Err(err),
                },
                Frame::Let { bindings, at, body, env } => {
                    let ghost bs = binding_terms(*bindings);
                    assert(bs.len() == bindings.len());
                    let env1 = push_local(env, bindings[at].0.clone(), v);
                    if at + 1 == bindings.len() {
                        assert(bs.skip(at + 1).len() == 0);
                        Ok(Some(Machine::Descending { e: body, env: env1 }))
                    } else {
                        proof {
                            assert(bs.skip(at + 1)[0] == bs[at + 1]);
                            assert(bs[at + 1] == (
                                bindings[at + 1].0@,
                                bindings[at + 1].1.term(),
                            ));
                            assert(bs.skip(at + 1).skip(1) =~= bs.skip(at + 2));
                        }
                        push_frame(
                            stack,
                            Frame::Let { bindings, at: at + 1, body, env: copy_env(&env1) },
                        );
                        Ok(Some(Machine::Descending { e: &bindings[at + 1].1, env: env1 }))
                    }
                },
                Frame::CallArgs { fun, evaled_args, args, at, env } => {
                    let ghost ts = terms(*args);
                    assert(ts.len() == args.len());
                    let mut evaled_args = evaled_args;
                    evaled_args.push(v);
                    if at + 1 == args.len() {
                        assert(ts.skip(at + 1).len() == 0);
                        match call(fun, evaled_args, funs) {
                            Ok(m) => Ok(Some(m)),
                            Err(err) => Err(err),
                        }
                    } else {
                        proof {
                            assert(ts.skip(at + 1)[0] == ts[at + 1]);
                            assert(ts[at + 1] == args[at + 1].term());
                            assert(ts.skip(at + 1).skip(1) =~= ts.skip(at + 2));
                        }
                        push_frame(
                            stack,
                            Frame::CallArgs {
                                fun,
                                evaled_args,
                                args,
                                at: at + 1,
                                env: copy_env(&env),
                            },
                        );
                        Ok(Some(Machine::Descending { e: &args[at + 1], env }))
                    }
                },
            }
        },
    }
}

/// Runs the machine on an expression for at most `fuel` steps. What the
/// program prints is added to `buf`, and its value at the end.
pub fn machine<'exp, Ann>(
    e: &'exp Exp<Ann>,
    buf: &mut String,
    store: &mut State<'exp, Ann>,
    fuel: u64,
) -> (r: Result<(), InterpErr>)
    ensures
        run_matches(
            r,
            final(buf)@,
            run(
                Config {
                    control: ControlView::Descending(e@, Seq::empty()),
                    stack: Seq::empty(),
                    funs: closures_of(old(store).funs@),
                    out: old(buf)@,
                },
                fuel as nat,
            ),
        ),
{
    let mut stack: Vec<Frame<'exp, Ann>> = Vec::new();
    let env: Env = Vec::new();
    let mut machine = Machine::Descending { e, env };
    let mut left: u64 = fuel;
    let ghost goal = run(
        Config {
            control: ControlView::Descending(e@, Seq::empty()),
            stack: Seq::empty(),
            funs: closures_of(store.funs@),
            out: buf@,
        },
        fuel as nat,
    );
    assert(table_of(env@) =~= Seq::<(Name, SnakeVal)>::empty());
    assert(frames_of(stack@) =~= Seq::<FrameView>::empty());
    while left > 0
        invariant
            stack_wf(stack@),
            goal == run(
                Config {
                    control: ControlView::Descending(e@, Seq::empty()),
                    stack: Seq::empty(),
                    funs: closures_of(old(store).funs@),
                    out: old(buf)@,
                },
                fuel as nat,
            ),
            goal == run(
                Config {
                    control: machine@,
                    stack: frames_of(stack@),
                    funs: closures_of(store.funs@),
                    out: buf@,
                },
                left as nat,
            ),
        decreases left,
    {
        let ghost now = Config {
            control: machine@,
            stack: frames_of(stack@),
            funs: closures_of(store.funs@),
            out: buf@,
        };
        assert(goal == (match step(now) {
            Outcome::Running(c) => run(c, (left - 1) as nat),
            end => end,
        }));
        let next = match machine {
            Machine::Descending { e, env } => descend(e, env, &mut stack, &mut store.funs, buf),
            Machine::Returning { v } => resume(v, &mut stack, &mut store.funs, buf),
        };
        match next {
            Ok(Some(m)) => {
                machine = m;
            },
            Ok(None) => {
                return Ok(());
            },
            Err(err) => {
                return Err(err);
            },
        }
        left -= 1;
    }
    Err(InterpErr::OutOfFuel)
}

/// Interprets an expression. What it prints is added to `w`, and its value
/// at the end.
pub fn exp<Ann>(e: &Exp<Ann>, w: &mut String) -> (r: Result<(), InterpErr>)
    ensures
        run_matches(r, final(w)@, interpret(e@, old(w)@, u64::MAX as nat)),
{
    let mut store = State::new();
    assert(closures_of(store.funs@) =~= Seq::<ClosureView>::empty());
    machine(e, w, &mut store, u64::MAX)
}

/// Interprets a program. What it prints is added to `w`, and its value at
/// the end.
pub fn prog<Ann>(p: &SurfProg<Ann>, w: &mut String) -> (r: Result<(), InterpErr>)
    ensures
        run_matches(r, final(w)@, interpret(p@, old(w)@, u64::MAX as nat)),
{
    let mut store = State::new();
    assert(closures_of(store.funs@) =~= Seq::<ClosureView>::empty());
    machine(p, w, &mut store, u64::MAX)
}

} // verus!
