use snake::checker::{check_prog, CompileErr};
use snake::driver::compile_to_string;
use snake::interp::{machine, prog, InterpErr, State};
use snake::parser::{ParseError, ProgParser};
use snake::syntax::{Exp, Span1};

fn parse(text: &str) -> Exp<Span1> {
    match ProgParser::new().parse(text) {
        Ok(e) => e,
        Err(e) => panic!("{:?}", e),
    }
}

fn run(text: &str) -> Result<String, InterpErr> {
    let p = parse(text);
    assert_eq!(check_prog(&p), Ok(()));
    let mut out = String::new();
    match prog(&p, &mut out) {
        Ok(()) => Ok(out),
        Err(e) => Err(e),
    }
}

#[test]
fn add1_twice() {
    assert_eq!(run("add1(add1(2))"), Ok(String::from("4\n")));
}

#[test]
fn nested_let() {
    assert_eq!(run("let x = 3 in let y = add1(x) in x + y"), Ok(String::from("7\n")));
}

#[test]
fn isnum_of_number() {
    assert_eq!(run("if isnum(5): true else: false"), Ok(String::from("true\n")));
}

#[test]
fn fibonacci_of_ten() {
    assert_eq!(
        run("def f(n): if n < 2: n else: f(n - 1) + f(n - 2) in f(10)"),
        Ok(String::from("55\n"))
    );
}

#[test]
fn number_plus_boolean_is_an_arithmetic_error() {
    match run("1 + true") {
        Err(InterpErr::ExpectedNum { who, got, msg }) => {
            assert_eq!(who, "arithmetic");
            assert_eq!(got, "true");
            assert_eq!(msg, "+");
        }
        other => panic!("{:?}", other),
    }
}

#[test]
fn number_as_condition_is_an_if_error() {
    match run("if 5: 1 else: 2") {
        Err(InterpErr::ExpectedBool { who, got, msg }) => {
            assert_eq!(who, "if");
            assert_eq!(got, "5");
            assert_eq!(msg, "if");
        }
        other => panic!("{:?}", other),
    }
}

#[test]
fn largest_number_plus_one_overflows() {
    match run("4611686018427387903 + 1") {
        Err(InterpErr::Overflow { msg }) => {
            assert_eq!(msg, "4611686018427387903 + 1 = 4611686018427387904");
        }
        other => panic!("{:?}", other),
    }
}

#[test]
fn duplicate_binding_is_reported_at_the_let() {
    let p = parse("let x = 1, x = 2 in x");
    assert_eq!(
        check_prog(&p),
        Err(CompileErr::DuplicateBinding {
            duplicated_name: String::from("x"),
            location: Span1 { start_ix: 0, end_ix: 21 },
        })
    );
}

#[test]
fn wrong_arity_is_reported_at_the_call() {
    let p = parse("def f(x): x in f(1, 2)");
    assert_eq!(
        check_prog(&p),
        Err(CompileErr::FunctionCalledWrongArity {
            function_name: String::from("f"),
            correct_arity: 1,
            arity_used: 2,
            location: Span1 { start_ix: 15, end_ix: 22 },
        })
    );
}

#[test]
fn print_returns_what_it_prints() {
    assert_eq!(run("print(print(2) + print(4))"), Ok(String::from("2\n4\n6\n6\n")));
}

#[test]
fn largest_and_smallest_numbers_are_accepted() {
    assert_eq!(check_prog(&parse("4611686018427387903")), Ok(()));
    assert_eq!(check_prog(&parse("-4611686018427387904")), Ok(()));
}

#[test]
fn two_to_the_sixty_second_is_rejected() {
    assert_eq!(
        check_prog(&parse("4611686018427387904")),
        Err(CompileErr::Overflow {
            num: 4611686018427387904,
            location: Span1 { start_ix: 0, end_ix: 19 },
        })
    );
    assert_eq!(
        check_prog(&parse("-4611686018427387905")),
        Err(CompileErr::Overflow {
            num: -4611686018427387905,
            location: Span1 { start_ix: 0, end_ix: 20 },
        })
    );
}

#[test]
fn add1_of_the_largest_number_overflows() {
    match run("add1(4611686018427387903)") {
        Err(InterpErr::Overflow { msg }) => {
            assert_eq!(msg, "4611686018427387903 add1 1 = 4611686018427387904");
        }
        other => panic!("{:?}", other),
    }
}

#[test]
fn checker_errors() {
    assert_eq!(
        check_prog(&parse("x")),
        Err(CompileErr::UnboundVariable {
            unbound: String::from("x"),
            location: Span1 { start_ix: 0, end_ix: 1 },
        })
    );
    assert_eq!(
        check_prog(&parse("f(1)")),
        Err(CompileErr::UndefinedFunction {
            undefined: String::from("f"),
            location: Span1 { start_ix: 0, end_ix: 4 },
        })
    );
    assert_eq!(
        check_prog(&parse("def f(x): x in f")),
        Err(CompileErr::FunctionUsedAsValue {
            function_name: String::from("f"),
            location: Span1 { start_ix: 15, end_ix: 16 },
        })
    );
    assert_eq!(
        check_prog(&parse("let x = 1 in x(2)")),
        Err(CompileErr::ValueUsedAsFunction {
            variable_name: String::from("x"),
            location: Span1 { start_ix: 13, end_ix: 17 },
        })
    );
    assert_eq!(
        check_prog(&parse("def f(x, x): x in f(1, 2)")),
        Err(CompileErr::DuplicateArgName {
            duplicated_name: String::from("x"),
            location: Span1 { start_ix: 0, end_ix: 14 },
        })
    );
    assert_eq!(
        check_prog(&parse("def f(x): x and def f(y): y in f(1)")),
        Err(CompileErr::DuplicateFunName {
            duplicated_name: String::from("f"),
            location: Span1 { start_ix: 16, end_ix: 27 },
        })
    );
}

#[test]
fn the_first_error_from_the_left_is_reported() {
    assert_eq!(
        check_prog(&parse("a + (let x = 1, x = 2 in b)")),
        Err(CompileErr::UnboundVariable {
            unbound: String::from("a"),
            location: Span1 { start_ix: 0, end_ix: 1 },
        })
    );
}

#[test]
fn later_bindings_see_earlier_ones() {
    assert_eq!(run("let x = 1, y = x + 1 in y"), Ok(String::from("2\n")));
}

#[test]
fn shadowing_across_lets_is_allowed() {
    assert_eq!(run("let x = 1 in let x = x + 1 in x"), Ok(String::from("2\n")));
}

#[test]
fn mutual_recursion() {
    let text = "def even(n): if n == 0: true else: odd(n - 1) \
                and def odd(n): if n == 0: false else: even(n - 1) in even(10)";
    assert_eq!(run(text), Ok(String::from("true\n")));
}

#[test]
fn local_function_captures_a_variable() {
    assert_eq!(run("let x = 10 in def f(y): x + y in f(5)"), Ok(String::from("15\n")));
}

#[test]
fn logic_and_comparison() {
    assert_eq!(run("!(1 < 2) || (3 >= 3 && 2 != 3)"), Ok(String::from("true\n")));
    assert_eq!(run("1 == true"), Ok(String::from("false\n")));
    assert_eq!(run("2 * 3 - 4"), Ok(String::from("2\n")));
    assert_eq!(run("sub1(0)"), Ok(String::from("-1\n")));
    assert_eq!(run("isbool(1)"), Ok(String::from("false\n")));
}

#[test]
fn logic_and_comparison_errors() {
    match run("true < 1") {
        Err(InterpErr::ExpectedNum { who, got, msg }) => {
            assert_eq!((who.as_str(), got.as_str(), msg.as_str()), ("comparison", "true", "<"));
        }
        other => panic!("{:?}", other),
    }
    match run("true && 1") {
        Err(InterpErr::ExpectedBool { who, got, msg }) => {
            assert_eq!((who.as_str(), got.as_str(), msg.as_str()), ("logic", "1", "&&"));
        }
        other => panic!("{:?}", other),
    }
    match run("!3") {
        Err(InterpErr::ExpectedBool { who, got, msg }) => {
            assert_eq!((who.as_str(), got.as_str(), msg.as_str()), ("logic", "3", "!"));
        }
        other => panic!("{:?}", other),
    }
}

#[test]
fn the_machine_stops_when_its_fuel_is_spent() {
    let p = parse("def f(n): f(n) in f(1)");
    let mut out = String::new();
    let mut store = State::new();
    assert_eq!(machine(&p, &mut out, &mut store, 1000), Err(InterpErr::OutOfFuel));
    assert_eq!(out, "");
}

#[test]
fn an_unchecked_program_gets_stuck() {
    let p = parse("x");
    let mut out = String::new();
    match prog(&p, &mut out) {
        Err(InterpErr::Stuck { msg }) => assert_eq!(msg, "unbound variable"),
        other => panic!("{:?}", other),
    }
}

#[test]
fn parse_errors() {
    let parser = ProgParser::new();
    assert_eq!(parser.parse("1 + )"), Err(ParseError::UnrecognizedToken { start: 4, end: 5 }));
    assert_eq!(parser.parse("1 +"), Err(ParseError::UnrecognizedEof { location: 3 }));
    assert_eq!(parser.parse(""), Err(ParseError::UnrecognizedEof { location: 0 }));
    assert_eq!(parser.parse("1 $ 2"), Err(ParseError::InvalidToken { location: 2 }));
    assert_eq!(parser.parse("1 2"), Err(ParseError::UnrecognizedToken { start: 2, end: 3 }));
    assert_eq!(
        parser.parse("99999999999999999999"),
        Err(ParseError::NumberOutOfRange { start: 0, end: 20 })
    );
    assert_eq!(parser.parse("1+2"), Err(ParseError::UnrecognizedToken { start: 1, end: 3 }));
}

#[test]
fn compiled_text_of_a_small_program() {
    let p = parse("add1(2)");
    let text = match compile_to_string(&p) {
        Ok(t) => t,
        Err(e) => panic!("{:?}", e),
    };
    let expected = "        section .text
        global start_here
        extern snake_error
        extern print_snake_val
arith_error:
        mov rdi, 0
        mov rsi, rax
        call snake_error
cmp_error:
        mov rdi, 1
        mov rsi, rax
        call snake_error
overflow_error:
        mov rdi, 2
        mov rsi, rax
        call snake_error
if_error:
        mov rdi, 3
        mov rsi, rax
        call snake_error
logic_error:
        mov rdi, 4
        mov rsi, rax
        call snake_error
start_here:
        call main
        ret
main:
        mov rax, 4
        mov rcx, rax
        and rcx, 1
        cmp rcx, 1
        je arith_error
        add rax, 2
        jo overflow_error
        ret
";
    assert_eq!(text, expected);
}

#[test]
fn compile_reports_the_error_of_the_check() {
    let p = parse("let x = 1, x = 2 in x");
    assert_eq!(
        compile_to_string(&p),
        Err(CompileErr::DuplicateBinding {
            duplicated_name: String::from("x"),
            location: Span1 { start_ix: 0, end_ix: 21 },
        })
    );
}
