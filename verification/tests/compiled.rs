// Compiled programs, run on a small model of the processor: the flow of
// control, the stack and the two functions of the runtime.

use std::collections::HashMap;

use snake::checker::check_prog;
use snake::compile::{compile_funs, compile_to_instrs, error_handle_instr};
use snake::lambda_lift::lambda_lift;
use snake::parser::ProgParser;
use snake::runtime::{error_message, sprint_snake_val};
use snake::sequentializer::seq_prog;
use snake::syntax::{Exp, FunDecl, ImmExp, Prim, SeqExp, SeqProg, Span1};
use snake::x86::{Arg32, Arg64, BinArgs, Instr, MemRef, MovArgs, Reg, Reg32};

struct Cpu {
    regs: [u64; 6],
    zero: bool,
    overflow: bool,
    mem: HashMap<u64, u64>,
    out: String,
}

fn index(r: Reg) -> usize {
    match r {
        Reg::Rax => 0,
        Reg::Rcx => 1,
        Reg::Rdx => 2,
        Reg::Rsi => 3,
        Reg::Rdi => 4,
        Reg::Rsp => 5,
    }
}

impl Cpu {
    fn address(&self, m: &MemRef) -> u64 {
        self.regs[index(m.reg)].wrapping_add(m.offset as i64 as u64)
    }

    fn load(&self, m: &MemRef) -> u64 {
        match self.mem.get(&self.address(m)) {
            Some(v) => *v,
            None => panic!("read of memory that was never written at {:#x}", self.address(m)),
        }
    }

    fn arg64(&self, a: &Arg64) -> u64 {
        match a {
            Arg64::Reg(r) => self.regs[index(*r)],
            Arg64::Signed(i) => *i as u64,
            Arg64::Unsigned(u) => *u,
            Arg64::Mem(m) => self.load(m),
        }
    }

    fn arg32(&self, a: &Arg32) -> u64 {
        match a {
            Arg32::Reg(r) => self.regs[index(*r)],
            Arg32::Signed(i) => *i as i64 as u64,
            Arg32::Unsigned(u) => *u as u64,
            Arg32::Mem(m) => self.load(m),
        }
    }

    fn reg32(&self, a: &Reg32) -> u64 {
        match a {
            Reg32::Reg(r) => self.regs[index(*r)],
            Reg32::Signed(i) => *i as i64 as u64,
            Reg32::Unsigned(u) => *u as u64,
        }
    }

    fn operands(&self, a: &BinArgs) -> (u64, u64) {
        match a {
            BinArgs::ToReg(r, src) => (self.regs[index(*r)], self.arg32(src)),
            BinArgs::ToMem(m, src) => (self.load(m), self.reg32(src)),
        }
    }

    fn write(&mut self, a: &BinArgs, v: u64) {
        match a {
            BinArgs::ToReg(r, _) => self.regs[index(*r)] = v,
            BinArgs::ToMem(m, _) => {
                let at = self.address(m);
                self.mem.insert(at, v);
            }
        }
    }

    fn compute(&mut self, a: &BinArgs, f: fn(i64, i64) -> (i64, bool)) {
        let (x, y) = self.operands(a);
        let (r, o) = f(x as i64, y as i64);
        self.write(a, r as u64);
        self.zero = r == 0;
        self.overflow = o;
    }
}

const RETURN_TO_RUNTIME: u64 = u64::MAX;

fn run_instrs(code: &[Instr], fuel: usize) -> Result<String, String> {
    let mut labels = HashMap::new();
    for (i, instr) in code.iter().enumerate() {
        if let Instr::Label(l) = instr {
            assert!(labels.insert(l.clone(), i).is_none(), "label {} is defined twice", l);
        }
    }
    let mut cpu = Cpu {
        regs: [0, 0, 0, 0, 0, 0x7fff_0008],
        zero: false,
        overflow: false,
        mem: HashMap::new(),
        out: String::new(),
    };
    cpu.mem.insert(cpu.regs[5], RETURN_TO_RUNTIME);
    let mut pc = labels["start_here"];
    for _ in 0..fuel {
        let instr = &code[pc];
        pc += 1;
        match instr {
            Instr::Mov(MovArgs::ToReg(r, src)) => cpu.regs[index(*r)] = cpu.arg64(src),
            Instr::Mov(MovArgs::ToMem(m, src)) => {
                let at = cpu.address(m);
                let v = cpu.reg32(src);
                cpu.mem.insert(at, v);
            }
            Instr::Add(a) => cpu.compute(a, |x, y| x.overflowing_add(y)),
            Instr::Sub(a) => cpu.compute(a, |x, y| x.overflowing_sub(y)),
            Instr::IMul(a) => cpu.compute(a, |x, y| x.overflowing_mul(y)),
            Instr::And(a) => cpu.compute(a, |x, y| (x & y, false)),
            Instr::Or(a) => cpu.compute(a, |x, y| (x | y, false)),
            Instr::Xor(a) => cpu.compute(a, |x, y| (x ^ y, false)),
            Instr::Shl(a) => cpu.compute(a, |x, y| (((x as u64) << y) as i64, false)),
            Instr::Sar(a) => cpu.compute(a, |x, y| (x >> y, false)),
            Instr::Cmp(a) => {
                let (x, y) = cpu.operands(a);
                cpu.zero = x == y;
                cpu.overflow = (x as i64).overflowing_sub(y as i64).1;
            }
            Instr::Je(l) => {
                if cpu.zero {
                    pc = labels[l];
                }
            }
            Instr::Jne(l) => {
                if !cpu.zero {
                    pc = labels[l];
                }
            }
            Instr::Jo(l) => {
                if cpu.overflow {
                    pc = labels[l];
                }
            }
            Instr::Jmp(l) => pc = labels[l],
            Instr::Call(l) if l == "print_snake_val" => {
                assert_eq!(cpu.regs[5] % 16, 0, "the stack is not aligned at a call of the runtime");
                let v = cpu.regs[4];
                cpu.out.push_str(&sprint_snake_val(v));
                cpu.out.push('\n');
                cpu.regs[0] = v;
            }
            Instr::Call(l) if l == "snake_error" => {
                return Err(error_message(cpu.regs[4], cpu.regs[3]));
            }
            Instr::Call(l) => {
                cpu.regs[5] -= 8;
                cpu.mem.insert(cpu.regs[5], pc as u64);
                pc = labels[l];
            }
            Instr::Ret => {
                let back = cpu.mem[&cpu.regs[5]];
                cpu.regs[5] += 8;
                if back == RETURN_TO_RUNTIME {
                    assert_eq!(cpu.regs[5], 0x7fff_0010);
                    cpu.out.push_str(&sprint_snake_val(cpu.regs[0]));
                    cpu.out.push('\n');
                    return Ok(cpu.out);
                }
                pc = back as usize;
            }
            Instr::Label(_) => {}
        }
    }
    Err(String::from("out of fuel"))
}

fn instructions(text: &str) -> Vec<Instr> {
    let p = match ProgParser::new().parse(text) {
        Ok(p) => p,
        Err(e) => panic!("{:?}", e),
    };
    instructions_of(&p)
}

fn instructions_of(p: &Exp<Span1>) -> Vec<Instr> {
    assert_eq!(check_prog(p), Ok(()));
    let (funs, main) = lambda_lift(p);
    let program = seq_prog(&funs, &main);
    let mut counter = 0;
    let mut code = error_handle_instr();
    code.extend(compile_funs(&program.funs, &mut counter));
    code.push(Instr::Label(String::from("start_here")));
    code.push(Instr::Call(String::from("main")));
    code.push(Instr::Ret);
    code.push(Instr::Label(String::from("main")));
    code.extend(compile_to_instrs(&program.main, &mut counter));
    code
}

fn instructions_of_sequential(program: &SeqProg<()>) -> Vec<Instr> {
    let mut counter = 0;
    let mut code = error_handle_instr();
    code.extend(compile_funs(&program.funs, &mut counter));
    code.push(Instr::Label(String::from("start_here")));
    code.push(Instr::Call(String::from("main")));
    code.push(Instr::Ret);
    code.push(Instr::Label(String::from("main")));
    code.extend(compile_to_instrs(&program.main, &mut counter));
    code
}

fn run(text: &str) -> Result<String, String> {
    run_instrs(&instructions(text), 1_000_000)
}

fn interpreted(text: &str) -> Result<String, String> {
    let p = match ProgParser::new().parse(text) {
        Ok(p) => p,
        Err(e) => panic!("{:?}", e),
    };
    let mut out = String::new();
    match snake::interp::prog(&p, &mut out) {
        Ok(()) => Ok(out),
        Err(e) => Err(snake::report::interp_error_message(&e)),
    }
}

#[test]
fn compiled_add1_twice() {
    assert_eq!(run("add1(add1(2))"), Ok(String::from("4\n")));
}

#[test]
fn compiled_nested_let() {
    assert_eq!(run("let x = 3 in let y = add1(x) in x + y"), Ok(String::from("7\n")));
}

#[test]
fn compiled_isnum() {
    assert_eq!(run("if isnum(5): true else: false"), Ok(String::from("true\n")));
}

#[test]
fn compiled_fibonacci() {
    assert_eq!(
        run("def f(n): if n < 2: n else: f(n - 1) + f(n - 2) in f(10)"),
        Ok(String::from("55\n"))
    );
}

#[test]
fn compiled_arithmetic_on_a_boolean_traps() {
    assert_eq!(run("1 + true"), Err(String::from("arithmetic expected a number true")));
}

#[test]
fn compiled_if_on_a_number_traps() {
    assert_eq!(run("if 5: 1 else: 2"), Err(String::from("if expected a boolean 5")));
}

#[test]
fn compiled_overflow_traps() {
    let e = run("4611686018427387903 + 1").unwrap_err();
    assert!(e.starts_with("overflow"), "{}", e);
    let e = run("add1(4611686018427387903)").unwrap_err();
    assert!(e.starts_with("overflow"), "{}", e);
    let e = run("sub1(-4611686018427387904)").unwrap_err();
    assert!(e.starts_with("overflow"), "{}", e);
    let e = run("3037000500 * 3037000500").unwrap_err();
    assert!(e.starts_with("overflow"), "{}", e);
}

#[test]
fn compiled_arithmetic_at_the_edges() {
    assert_eq!(
        run("4611686018427387902 + 1"),
        Ok(String::from("4611686018427387903\n"))
    );
    assert_eq!(
        run("-4611686018427387903 - 1"),
        Ok(String::from("-4611686018427387904\n"))
    );
    assert_eq!(run("2147483648 * 2147483647"), Ok(String::from("4611686016279904256\n")));
    assert_eq!(run("-3 * 4"), Ok(String::from("-12\n")));
}

#[test]
fn compiled_print_returns_what_it_prints() {
    assert_eq!(run("print(print(2) + print(4))"), Ok(String::from("2\n4\n6\n6\n")));
}

#[test]
fn compiled_comparisons_and_logic() {
    for (text, value) in [
        ("1 < 2", "true"),
        ("2 < 1", "false"),
        ("2 < 2", "false"),
        ("1 > 2", "false"),
        ("2 > 1", "true"),
        ("2 <= 2", "true"),
        ("3 <= 2", "false"),
        ("2 >= 2", "true"),
        ("1 >= 2", "false"),
        ("-5 < 3", "true"),
        ("-4611686018427387904 < 4611686018427387903", "true"),
        ("4611686018427387903 > -4611686018427387904", "true"),
        ("1 == 1", "true"),
        ("1 == 2", "false"),
        ("1 != 2", "true"),
        ("true == true", "true"),
        ("true == 1", "false"),
        ("true != false", "true"),
        ("!true", "false"),
        ("!false", "true"),
        ("true && false", "false"),
        ("true && true", "true"),
        ("false || false", "false"),
        ("false || true", "true"),
        ("isnum(1)", "true"),
        ("isnum(false)", "false"),
        ("isbool(true)", "true"),
        ("isbool(0)", "false"),
    ] {
        assert_eq!(run(text), Ok(format!("{}\n", value)), "{}", text);
    }
}

#[test]
fn compiled_type_errors() {
    assert_eq!(run("true < 1"), Err(String::from("comparison expected a number true")));
    assert_eq!(run("1 < false"), Err(String::from("comparison expected a number false")));
    assert_eq!(run("true + 2"), Err(String::from("arithmetic expected a number true")));
    assert_eq!(run("2 * false"), Err(String::from("arithmetic expected a number false")));
    assert_eq!(run("!3"), Err(String::from("logic expected a boolean 3")));
    assert_eq!(run("1 && true"), Err(String::from("logic expected a boolean 1")));
    assert_eq!(run("true || 7"), Err(String::from("logic expected a boolean 7")));
    assert_eq!(run("sub1(true)"), Err(String::from("arithmetic expected a number true")));
}

#[test]
fn a_trap_reports_the_first_operand_from_the_left_that_fails() {
    assert_eq!(run("true + false"), Err(String::from("arithmetic expected a number true")));
    assert_eq!(run("false - true"), Err(String::from("arithmetic expected a number false")));
    assert_eq!(run("false * true"), Err(String::from("arithmetic expected a number false")));
    assert_eq!(run("true < false"), Err(String::from("comparison expected a number true")));
    assert_eq!(run("false >= true"), Err(String::from("comparison expected a number false")));
    assert_eq!(run("false > true"), Err(String::from("comparison expected a number false")));
    assert_eq!(run("1 && 2"), Err(String::from("logic expected a boolean 1")));
    assert_eq!(run("2 || 1"), Err(String::from("logic expected a boolean 2")));
    let both = [
        ("true + false", "arithmetic expected a number", "true"),
        ("false * true", "arithmetic expected a number", "false"),
        ("true < false", "comparison expected a number", "true"),
        ("false >= true", "comparison expected a number", "false"),
        ("1 && 2", "logic expected a boolean", "1"),
        ("2 || 1", "logic expected a boolean", "2"),
    ];
    for (text, what, got) in both {
        assert_eq!(run(text), Err(format!("{} {}", what, got)), "{}", text);
        let told = interpreted(text).unwrap_err();
        assert!(told.starts_with(&format!("{}, but got {} in ", what, got)), "{}", told);
    }
}

#[test]
fn compiled_functions() {
    let programs = [
        "def f(x, y): x - y in f(10, 3)",
        "let x = 10 in def f(y): x + y in f(5)",
        "let x = 1 in def f(n): g(n) and def g(n): n + x in f(0)",
        "def even(n): if n == 0: true else: odd(n - 1) \
         and def odd(n): if n == 0: false else: even(n - 1) in even(101)",
        "def f(n, acc): if n == 0: acc else: f(n - 1, acc + n) in f(1000, 0)",
        "def f(a): def g(b): a + b in g(1) + g(2) in f(10) * f(20)",
        "def f(a, b, c): let x = a + b, y = x * c in print(y) - g(x, y) \
         and def g(p, q): if p < q: print(p) else: print(q) in f(1, 2, 3) + f(3, 2, 1)",
        "let a = 1, b = 2 in def f(): a + b in let c = f() in def g(x): x + a + c in g(f())",
        "def loop(n): if n == 0: 0 else: let m = print(n) in loop(n - 1) in loop(3)",
    ];
    for text in programs {
        assert_eq!(run(text), interpreted(text), "{}", text);
    }
    assert_eq!(run(programs[4]), Ok(String::from("500500\n")));
    assert_eq!(run(programs[5]), Ok(String::from("989\n")));
}

#[test]
fn compiled_code_agrees_with_the_interpreter_on_errors_in_functions() {
    let text = "def f(x): if x: 1 else: f(x + 1) in f(false)";
    let e = run(text).unwrap_err();
    assert_eq!(e, "arithmetic expected a number false");
    assert!(interpreted(text).unwrap_err().starts_with("arithmetic expected a number"));
}

#[test]
fn a_deep_tail_call_keeps_the_stack() {
    let text = "def count(n): if n == 0: 0 else: count(n - 1) in count(20000)";
    let code = instructions(text);
    assert_eq!(run_instrs(&code, 10_000_000), Ok(String::from("0\n")));
}

#[test]
fn a_variable_named_like_a_closure_hides_the_function_from_the_interpreter_only() {
    let at = Span1 { start_ix: 0, end_ix: 0 };
    let g = FunDecl {
        name: String::from("g"),
        parameters: vec![],
        body: Exp::Num(1, at.clone()),
        ann: at.clone(),
    };
    let p = Exp::FunDefs {
        decls: vec![g],
        body: Box::new(Exp::Let {
            bindings: vec![(String::from("g#fun"), Exp::Num(5, at.clone()))],
            body: Box::new(Exp::Call(String::from("g"), vec![], at.clone())),
            ann: at.clone(),
        }),
        ann: at,
    };
    let mut out = String::new();
    assert_eq!(
        snake::interp::prog(&p, &mut out),
        Err(snake::interp::InterpErr::Stuck { msg: String::from("unbound function") })
    );
    assert_eq!(run_instrs(&instructions_of(&p), 1_000_000), Ok(String::from("1\n")));
}

fn var(x: &str) -> ImmExp {
    ImmExp::Var(String::from(x))
}

fn bind(x: &str, value: SeqExp<()>, body: SeqExp<()>) -> SeqExp<()> {
    SeqExp::Let { var: String::from(x), bound_exp: Box::new(value), body: Box::new(body), ann: () }
}

// sum(n, acc): if n == 0: acc else: sum(n - 1, acc + n), the call as a
// tail call within the group.
fn sum_with_an_internal_tail_call(n: i64) -> SeqProg<()> {
    let again = SeqExp::InternalTailCall(String::from("sum"), vec![var("m"), var("s")], ());
    let step = bind(
        "m",
        SeqExp::Prim(Prim::Sub, vec![var("n"), ImmExp::Num(1)], ()),
        bind("s", SeqExp::Prim(Prim::Add, vec![var("acc"), var("n")], ()), again),
    );
    let body = bind(
        "c",
        SeqExp::Prim(Prim::Eq, vec![var("n"), ImmExp::Num(0)], ()),
        SeqExp::If {
            cond: var("c"),
            thn: Box::new(SeqExp::Imm(var("acc"), ())),
            els: Box::new(step),
            ann: (),
        },
    );
    let sum = FunDecl {
        name: String::from("sum"),
        parameters: vec![String::from("n"), String::from("acc")],
        body,
        ann: (),
    };
    let main = SeqExp::ExternalCall {
        fun_name: String::from("sum"),
        args: vec![ImmExp::Num(n), ImmExp::Num(0)],
        is_tail: false,
        ann: (),
    };
    SeqProg { funs: vec![sum], main, ann: () }
}

#[test]
fn an_internal_tail_call_writes_the_parameters_and_jumps() {
    let code = instructions_of_sequential(&sum_with_an_internal_tail_call(100));
    assert!(code.contains(&Instr::Jmp(String::from("fun_sum"))));
    let calls = code.iter().filter(|i| **i == Instr::Call(String::from("fun_sum"))).count();
    assert_eq!(calls, 1);
    assert_eq!(run_instrs(&code, 1_000_000), Ok(String::from("5050\n")));
}

#[test]
fn a_deep_internal_tail_call_keeps_the_stack() {
    let code = instructions_of_sequential(&sum_with_an_internal_tail_call(20000));
    assert_eq!(run_instrs(&code, 10_000_000), Ok(String::from("200010000\n")));
}

#[test]
fn an_internal_tail_call_with_more_arguments_than_parameters_is_a_call() {
    let wide = FunDecl {
        name: String::from("wide"),
        parameters: vec![String::from("a"), String::from("b")],
        body: SeqExp::Prim(Prim::Sub, vec![var("a"), var("b")], ()),
        ann: (),
    };
    let main =
        SeqExp::InternalTailCall(String::from("wide"), vec![ImmExp::Num(9), ImmExp::Num(2)], ());
    let code = instructions_of_sequential(&SeqProg { funs: vec![wide], main, ann: () });
    assert!(code.contains(&Instr::Call(String::from("fun_wide"))));
    assert!(!code.contains(&Instr::Jmp(String::from("fun_wide"))));
    assert_eq!(run_instrs(&code, 1_000_000), Ok(String::from("7\n")));
}
