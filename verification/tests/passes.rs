use snake::compile::{compile_seq_prog, space_needed, tag_number};
use snake::driver::{compile, compile_to_string, Refusal};
use snake::lambda_lift::lambda_lift;
use snake::limits::is_surface;
use snake::names::{decimal_string, hex_word_string, signed_decimal_string};
use snake::parser::{ExpParser, ParseError, ProgParser};
use snake::report::{compile_error_message, interp_error_message, parse_error_message};
use snake::runtime::{error_message, sprint_snake_val, unsigned_to_signed};
use snake::sequentializer::seq_prog;
use snake::syntax::{Exp, FunDecl, ImmExp, Prim, SeqExp, SeqProg, Span1};
use snake::uniquify::uniquify;
use snake::x86::{instr_to_string, instrs_to_string, Arg32, Arg64, BinArgs, Instr, MemRef};
use snake::x86::{MovArgs, Reg, Reg32};

fn parse(text: &str) -> Exp<Span1> {
    match ProgParser::new().parse(text) {
        Ok(e) => e,
        Err(e) => panic!("{:?}", e),
    }
}

fn var(x: &str) -> Exp<()> {
    Exp::Var(String::from(x), ())
}

fn renamed(text: &str) -> Exp<()> {
    let mut mapping = Vec::new();
    let mut counter = 0;
    uniquify(&parse(text), &mut mapping, &mut counter)
}

#[test]
fn numerals() {
    assert_eq!(decimal_string(0), "0");
    assert_eq!(decimal_string(90210), "90210");
    assert_eq!(decimal_string(u64::MAX), "18446744073709551615");
    assert_eq!(signed_decimal_string(-1), "-1");
    assert_eq!(signed_decimal_string(i64::MIN), "-9223372036854775808");
    assert_eq!(hex_word_string(0x7fff_ffff_ffff_ffff), "0x7fffffffffffffff");
    assert_eq!(hex_word_string(10), "0x000000000000000a");
}

#[test]
fn a_number_is_tagged_by_doubling() {
    assert_eq!(tag_number(2), 4);
    assert_eq!(tag_number(-3), -6);
    assert_eq!(tag_number(4611686018427387903), 9223372036854775806);
    assert_eq!(tag_number(-4611686018427387904), i64::MIN);
}

#[test]
fn the_runtime_renders_tagged_values() {
    assert_eq!(sprint_snake_val(8), "4");
    assert_eq!(sprint_snake_val(0xffff_ffff_ffff_fffe), "-1");
    assert_eq!(sprint_snake_val(0xffff_ffff_ffff_ffff), "true");
    assert_eq!(sprint_snake_val(0x7fff_ffff_ffff_ffff), "false");
    assert_eq!(sprint_snake_val(5), "Invalid snake value 0x5");
    assert_eq!(sprint_snake_val(0x8000_0000_0000_0000), "-4611686018427387904");
    assert_eq!(unsigned_to_signed(u64::MAX), -1);
    assert_eq!(unsigned_to_signed(7), 7);
}

#[test]
fn the_runtime_names_each_trap() {
    assert_eq!(error_message(0, 0xffff_ffff_ffff_ffff), "arithmetic expected a number true");
    assert_eq!(error_message(1, 0x7fff_ffff_ffff_ffff), "comparison expected a number false");
    assert_eq!(error_message(2, 6), "overflow 3");
    assert_eq!(error_message(3, 10), "if expected a boolean 5");
    assert_eq!(error_message(4, 2), "logic expected a boolean 1");
    assert_eq!(error_message(9, 2), "Unknown error 9");
}

#[test]
fn instructions_as_text() {
    let rax = Reg::Rax;
    assert_eq!(instr_to_string(&Instr::Mov(MovArgs::ToReg(rax, Arg64::Signed(-4)))), "        mov rax, -4");
    assert_eq!(
        instr_to_string(&Instr::Mov(MovArgs::ToReg(rax, Arg64::Unsigned(u64::MAX)))),
        "        mov rax, 0xffffffffffffffff"
    );
    assert_eq!(
        instr_to_string(&Instr::Mov(MovArgs::ToMem(
            MemRef { reg: Reg::Rsp, offset: -16 },
            Reg32::Reg(rax)
        ))),
        "        mov QWORD [rsp - 16], rax"
    );
    assert_eq!(
        instr_to_string(&Instr::Mov(MovArgs::ToReg(
            Reg::Rdx,
            Arg64::Mem(MemRef { reg: Reg::Rsp, offset: 8 })
        ))),
        "        mov rdx, QWORD [rsp + 8]"
    );
    assert_eq!(
        instr_to_string(&Instr::Sub(BinArgs::ToReg(Reg::Rsp, Arg32::Unsigned(16)))),
        "        sub rsp, 16"
    );
    assert_eq!(instr_to_string(&Instr::Label(String::from("main"))), "main:");
    assert_eq!(instr_to_string(&Instr::Ret), "        ret");
    assert_eq!(
        instrs_to_string(&vec![Instr::Jo(String::from("overflow_error")), Instr::Ret]),
        "        jo overflow_error\n        ret\n"
    );
}

#[test]
fn every_binding_gets_the_next_numeral() {
    let e = renamed("let x = 1, y = x in def f(a): a + y in f(x)");
    let expected = Exp::Let {
        bindings: vec![
            (String::from("1"), Exp::Num(1, ())),
            (String::from("2"), var("1")),
        ],
        body: Box::new(Exp::FunDefs {
            decls: vec![FunDecl {
                name: String::from("3"),
                parameters: vec![String::from("4")],
                body: Exp::Prim(Prim::Add, vec![Box::new(var("4")), Box::new(var("2"))], ()),
                ann: (),
            }],
            body: Box::new(Exp::Call(String::from("3"), vec![var("1")], ())),
            ann: (),
        }),
        ann: (),
    };
    assert_eq!(e, expected);
}

#[test]
fn renaming_twice_is_renaming_once() {
    let once = renamed("let x = 1 in def f(a): let x = a in x + a and def g(): f(x) in g() + f(2)");
    let mut mapping = Vec::new();
    let mut counter = 0;
    let twice = uniquify(&once, &mut mapping, &mut counter);
    assert_eq!(once, twice);
}

#[test]
fn a_shadowed_name_is_renamed_apart() {
    let e = renamed("let x = 1 in let x = x in x");
    let expected = Exp::Let {
        bindings: vec![(String::from("1"), Exp::Num(1, ()))],
        body: Box::new(Exp::Let {
            bindings: vec![(String::from("2"), var("1"))],
            body: Box::new(var("2")),
            ann: (),
        }),
        ann: (),
    };
    assert_eq!(e, expected);
}

#[test]
fn lifting_passes_captured_variables() {
    let (funs, main) = lambda_lift(&parse("let x = 10 in def f(y): x + y in f(5)"));
    assert_eq!(
        funs,
        vec![FunDecl {
            name: String::from("2"),
            parameters: vec![String::from("3"), String::from("1")],
            body: Exp::Prim(Prim::Add, vec![Box::new(var("1")), Box::new(var("3"))], ()),
            ann: (),
        }]
    );
    assert_eq!(
        main,
        Exp::Let {
            bindings: vec![(String::from("1"), Exp::Num(10, ()))],
            body: Box::new(Exp::ExternalCall {
                fun_name: String::from("2"),
                args: vec![Exp::Num(5, ()), var("1")],
                is_tail: false,
                ann: (),
            }),
            ann: (),
        }
    );
}

#[test]
fn a_function_captures_what_the_functions_it_calls_capture() {
    let text = "let x = 1 in def f(n): g(n) and def g(n): n + x in f(0)";
    let (funs, _) = lambda_lift(&parse(text));
    assert_eq!(funs.len(), 2);
    assert_eq!(funs[0].parameters, vec![String::from("4"), String::from("1")]);
    assert_eq!(funs[1].parameters, vec![String::from("5"), String::from("1")]);
    assert_eq!(
        funs[0].body,
        Exp::ExternalCall {
            fun_name: String::from("3"),
            args: vec![var("4"), var("1")],
            is_tail: false,
            ann: (),
        }
    );
}

#[test]
fn nested_functions_are_lifted_before_the_function_that_holds_them() {
    let text = "def f(a): def g(b): a + b in g(1) in f(2)";
    let (funs, main) = lambda_lift(&parse(text));
    assert_eq!(funs.len(), 2);
    assert_eq!(funs[0].name, "3");
    assert_eq!(funs[0].parameters, vec![String::from("4"), String::from("2")]);
    assert_eq!(funs[1].name, "1");
    assert_eq!(funs[1].parameters, vec![String::from("2")]);
    assert_eq!(
        main,
        Exp::ExternalCall {
            fun_name: String::from("1"),
            args: vec![Exp::Num(2, ())],
            is_tail: false,
            ann: (),
        }
    );
}

#[test]
fn operands_become_immediates() {
    let mut counter = 0;
    let e = Exp::Prim(
        Prim::Add,
        vec![
            Box::new(Exp::Prim(Prim::Add1, vec![Box::new(Exp::Num(1, ()))], ())),
            Box::new(var("x")),
        ],
        (),
    );
    let expected = SeqExp::Let {
        var: String::from("#var_1"),
        bound_exp: Box::new(SeqExp::Prim(Prim::Add1, vec![ImmExp::Num(1)], ())),
        body: Box::new(SeqExp::Prim(
            Prim::Add,
            vec![ImmExp::Var(String::from("#var_1")), ImmExp::Var(String::from("x"))],
            (),
        )),
        ann: (),
    };
    assert_eq!(snake::sequentializer::seq(&e, &mut counter), expected);
    assert_eq!(counter, 1);
}

#[test]
fn the_condition_of_an_if_is_bound() {
    let mut counter = 0;
    let e: Exp<()> = Exp::If {
        cond: Box::new(Exp::Bool(true, ())),
        thn: Box::new(Exp::Num(1, ())),
        els: Box::new(Exp::Num(2, ())),
        ann: (),
    };
    let expected = SeqExp::Let {
        var: String::from("#if_1"),
        bound_exp: Box::new(SeqExp::Imm(ImmExp::Bool(true), ())),
        body: Box::new(SeqExp::If {
            cond: ImmExp::Var(String::from("#if_1")),
            thn: Box::new(SeqExp::Imm(ImmExp::Num(1), ())),
            els: Box::new(SeqExp::Imm(ImmExp::Num(2), ())),
            ann: (),
        }),
        ann: (),
    };
    assert_eq!(snake::sequentializer::seq(&e, &mut counter), expected);
}

#[test]
fn calls_in_tail_position_are_marked() {
    let call = |name: &str| Exp::ExternalCall {
        fun_name: String::from(name),
        args: vec![],
        is_tail: false,
        ann: (),
    };
    let e = Exp::Let {
        bindings: vec![(String::from("x"), call("f"))],
        body: Box::new(Exp::If {
            cond: Box::new(var("x")),
            thn: Box::new(call("g")),
            els: Box::new(Exp::Prim(Prim::Add1, vec![Box::new(call("h"))], ())),
            ann: (),
        }),
        ann: (),
    };
    let mut counter = 0;
    let s = snake::sequentializer::seq(&e, &mut counter);
    let marked = |name: &str, is_tail: bool| SeqExp::ExternalCall {
        fun_name: String::from(name),
        args: vec![],
        is_tail,
        ann: (),
    };
    let expected = SeqExp::Let {
        var: String::from("x"),
        bound_exp: Box::new(marked("f", false)),
        body: Box::new(SeqExp::Let {
            var: String::from("#if_1"),
            bound_exp: Box::new(SeqExp::Imm(ImmExp::Var(String::from("x")), ())),
            body: Box::new(SeqExp::If {
                cond: ImmExp::Var(String::from("#if_1")),
                thn: Box::new(marked("g", true)),
                els: Box::new(SeqExp::Let {
                    var: String::from("#var_2"),
                    bound_exp: Box::new(marked("h", false)),
                    body: Box::new(SeqExp::Prim(
                        Prim::Add1,
                        vec![ImmExp::Var(String::from("#var_2"))],
                        (),
                    )),
                    ann: (),
                }),
                ann: (),
            }),
            ann: (),
        }),
        ann: (),
    };
    assert_eq!(s, expected);
}

#[test]
fn the_frame_is_an_even_number_of_words() {
    let imm = |n: i64| SeqExp::Imm(ImmExp::Num(n), ());
    let bind = |body: SeqExp<()>| SeqExp::Let {
        var: String::from("x"),
        bound_exp: Box::new(imm(1)),
        body: Box::new(body),
        ann: (),
    };
    assert_eq!(space_needed(&imm(0)), 16);
    assert_eq!(space_needed(&bind(imm(0))), 16);
    assert_eq!(space_needed(&bind(bind(imm(0)))), 32);
    assert_eq!(space_needed(&bind(bind(bind(imm(0))))), 32);
}

#[test]
fn a_function_with_a_call_and_a_tail_call() {
    let text = "def f(n, acc): if n == 0: acc else: f(n - 1, acc + n) in f(3, 0)";
    let assembly = match compile_to_string(&parse(text)) {
        Ok(t) => t,
        Err(e) => panic!("{:?}", e),
    };
    let expected_function = "fun_1:
        mov rax, QWORD [rsp + 8]
        mov rdx, 0
        cmp rax, rdx
        je true_1
        mov rax, 0x7fffffffffffffff
        jmp cmp_done_1
true_1:
        mov rax, 0xffffffffffffffff
cmp_done_1:
        mov QWORD [rsp - 8], rax
        mov rax, QWORD [rsp - 8]
        mov rcx, rax
        and rcx, 1
        cmp rcx, 0
        je if_error
        mov rdx, 0x7fffffffffffffff
        cmp rax, rdx
        je else_2
        mov rax, QWORD [rsp + 16]
        jmp done_2
else_2:
        mov rax, QWORD [rsp + 8]
        mov rcx, rax
        and rcx, 1
        cmp rcx, 1
        je arith_error
        mov rdx, rax
        mov rax, 2
        mov rcx, rax
        and rcx, 1
        cmp rcx, 1
        je arith_error
        mov rcx, rax
        mov rax, rdx
        mov rdx, rcx
        sub rax, rdx
        jo overflow_error
        mov QWORD [rsp - 16], rax
        mov rax, QWORD [rsp + 16]
        mov rcx, rax
        and rcx, 1
        cmp rcx, 1
        je arith_error
        mov rdx, rax
        mov rax, QWORD [rsp + 8]
        mov rcx, rax
        and rcx, 1
        cmp rcx, 1
        je arith_error
        mov rcx, rax
        mov rax, rdx
        mov rdx, rcx
        add rax, rdx
        jo overflow_error
        mov QWORD [rsp - 24], rax
        mov rax, QWORD [rsp - 16]
        mov QWORD [rsp - 40], rax
        mov rax, QWORD [rsp - 24]
        mov QWORD [rsp - 32], rax
        mov rax, QWORD [rsp - 40]
        mov QWORD [rsp + 8], rax
        mov rax, QWORD [rsp - 32]
        mov QWORD [rsp + 16], rax
        jmp fun_1
done_2:
        ret
";
    let expected_main = "main:
        mov rax, 6
        mov QWORD [rsp - 40], rax
        mov rax, 0
        mov QWORD [rsp - 32], rax
        sub rsp, 40
        call fun_1
        add rsp, 40
        ret
";
    assert!(assembly.contains(expected_function), "{}", assembly);
    assert!(assembly.ends_with(expected_main), "{}", assembly);
}

#[test]
fn compile_says_why_it_refuses() {
    assert_eq!(
        compile(&parse("x")),
        Err(Refusal::Invalid(snake::checker::CompileErr::UnboundVariable {
            unbound: String::from("x"),
            location: Span1 { start_ix: 0, end_ix: 1 },
        }))
    );
    let internal: Exp<Span1> =
        Exp::InternalTailCall(String::from("f"), vec![], Span1 { start_ix: 0, end_ix: 0 });
    assert_eq!(compile(&internal), Err(Refusal::Malformed));
    assert!(!is_surface(&internal));
    let short: Exp<()> = Exp::Prim(Prim::Add, vec![Box::new(Exp::Num(1, ()))], ());
    assert!(!is_surface(&short));
    assert_eq!(compile(&short), Err(Refusal::Malformed));
    assert_eq!(compile(&parse("1 + 2")), compile_to_string(&parse("1 + 2")).map_err(Refusal::Invalid));
}

#[test]
fn a_program_in_sequential_form_is_compiled_as_it_is() {
    let p = SeqProg {
        funs: vec![],
        main: SeqExp::Prim(Prim::Print, vec![ImmExp::Bool(false)], ()),
        ann: (),
    };
    let text = compile_seq_prog(&p);
    assert!(text.ends_with(
        "main:
        mov rdi, 0x7fffffffffffffff
        sub rsp, 16
        call print_snake_val
        add rsp, 16
        ret
"
    ));
    assert_eq!(seq_prog(&vec![], &Exp::Num(1, ())).main, SeqExp::Imm(ImmExp::Num(1), ()));
}

#[test]
fn spans_cover_the_tokens_of_a_node() {
    let e = match ExpParser::new().parse("(1 + 2) * f(x)") {
        Ok(e) => e,
        Err(e) => panic!("{:?}", e),
    };
    let expected = Exp::Prim(
        Prim::Mul,
        vec![
            Box::new(Exp::Prim(
                Prim::Add,
                vec![
                    Box::new(Exp::Num(1, Span1 { start_ix: 1, end_ix: 2 })),
                    Box::new(Exp::Num(2, Span1 { start_ix: 5, end_ix: 6 })),
                ],
                Span1 { start_ix: 1, end_ix: 6 },
            )),
            Box::new(Exp::Call(
                String::from("f"),
                vec![Exp::Var(String::from("x"), Span1 { start_ix: 12, end_ix: 13 })],
                Span1 { start_ix: 10, end_ix: 14 },
            )),
        ],
        Span1 { start_ix: 0, end_ix: 14 },
    );
    assert_eq!(e, expected);
}

#[test]
fn operators_group_as_the_grammar_says() {
    let show = |text: &str| format!("{:?}", renamed(text));
    assert_eq!(show("1 - 2 - 3"), show("(1 - 2) - 3"));
    assert_eq!(show("1 + 2 * 3"), show("1 + (2 * 3)"));
    assert_eq!(show("true && false || true"), show("true && (false || true)"));
    assert_eq!(show("1 < 2 == true"), show("(1 < 2) == true"));
    assert_eq!(show("!true && false"), show("(!true) && false"));
    assert_eq!(show("f(1, 2,)"), show("f(1, 2)"));
    assert_eq!(show("1 + -2"), show("1 + (-2)"));
    assert_eq!(show("iffy + lettuce"), show("(iffy) + (lettuce)"));
}

#[test]
fn errors_as_text() {
    let text = "1 + )";
    let e = match ProgParser::new().parse(text) {
        Err(e) => e,
        Ok(p) => panic!("{:?}", p),
    };
    assert_eq!(e, ParseError::UnrecognizedToken { start: 4, end: 5 });
    assert_eq!(parse_error_message(&e, text), "Unrecognized token `)` found at 4:5");
    assert_eq!(
        parse_error_message(&ParseError::InvalidToken { location: 3 }, text),
        "Invalid token at 3"
    );
    assert_eq!(
        compile_error_message(&snake::checker::CompileErr::FunctionCalledWrongArity {
            function_name: String::from("f"),
            correct_arity: 1,
            arity_used: 2,
            location: Span1 { start_ix: 15, end_ix: 22 },
        }),
        "Function f of 1 arguments is called with 2 at 15:22"
    );
    assert_eq!(
        interp_error_message(&snake::interp::InterpErr::ExpectedNum {
            who: String::from("arithmetic"),
            got: String::from("true"),
            msg: String::from("+"),
        }),
        "arithmetic expected a number, but got true in +"
    );
    assert_eq!(
        interp_error_message(&snake::interp::InterpErr::ArityErr {
            expected_arity: 1,
            num_provided: 2
        }),
        "Function expecting 1 arguments called with 2 arguments"
    );
}
