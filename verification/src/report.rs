//! Errors as text, for whoever shows them to a person.

use crate::checker::{CompileErr, Fault};
use crate::interp::{InterpErr, InterpFault};
use crate::names::{decimal, decimal_string, signed_decimal, signed_decimal_string};
use crate::parser::ParseError;
use crate::syntax::Span1;
use vstd::prelude::*;

verus! {

/// A span as text: its start, a colon, its end.
pub open spec fn span_text(s: Span1) -> Seq<char> {
    decimal(s.start_ix as nat) + ":"@ + decimal(s.end_ix as nat)
}

/// What is wrong with a program, without the place.
pub open spec fn fault_text(f: Fault) -> Seq<char> {
    match f {
        Fault::UnboundVariable(x) => "Unbound variable "@ + x,
        Fault::UndefinedFunction(x) => "Undefined function "@ + x,
        Fault::DuplicateBinding(x) => "Variable "@ + x + " is bound twice in the same let"@,
        Fault::Overflow(n) => "Number literal "@ + signed_decimal(n as int)
            + " does not fit in 63 bits"@,
        Fault::DuplicateFunName(x) => "Function "@ + x + " is defined twice in the same group"@,
        Fault::DuplicateArgName(x) => "Parameter "@ + x + " is used twice in the same function"@,
        Fault::FunctionUsedAsValue(x) => "Function "@ + x + " is used as a value"@,
        Fault::ValueUsedAsFunction(x) => "Variable "@ + x + " is called as a function"@,
        Fault::FunctionCalledWrongArity(x, want, got) => "Function "@ + x + " of "@ + decimal(
            want as nat,
        ) + " arguments is called with "@ + decimal(got as nat),
    }
}

/// An error of the semantic check as text.
pub open spec fn compile_error_text(e: CompileErr<Span1>) -> Seq<char> {
    fault_text(e.fault()) + " at "@ + span_text(e.location())
}

/// A run-time error of the interpreter as text.
pub open spec fn interp_error_text(f: InterpFault) -> Seq<char> {
    match f {
        InterpFault::ExpectedNum { who, got, msg } => who + " expected a number, but got "@ + got
            + " in "@ + msg,
        InterpFault::ExpectedBool { who, got, msg } => who + " expected a boolean, but got "@ + got
            + " in "@ + msg,
        InterpFault::ExpectedFun { who, got, msg } => who + " expected a function, but got "@ + got
            + " in "@ + msg,
        InterpFault::Overflow { msg } => "Operation "@ + msg + " overflowed"@,
        InterpFault::Write { msg } => "I/O Error when printing: "@ + msg,
        InterpFault::ArityErr { expected_arity, num_provided } => "Function expecting "@ + decimal(
            expected_arity as nat,
        ) + " arguments called with "@ + decimal(num_provided as nat) + " arguments"@,
        InterpFault::Stuck { msg } => "The program is stuck: "@ + msg,
        InterpFault::OutOfFuel => "The program did not end within the steps it was given"@,
    }
}

/// An error of the parser as text. The token that cannot stand where it
/// does is quoted from `input`, where the text holds it.
pub open spec fn parse_error_text(e: ParseError, input: Seq<char>) -> Seq<char> {
    match e {
        ParseError::InvalidToken { location } => "Invalid token at "@ + decimal(location as nat),
        ParseError::UnrecognizedEof { location } => "Unrecognized EOF found at "@ + decimal(
            location as nat,
        ),
        ParseError::UnrecognizedToken { start, end } => "Unrecognized token `"@ + (if start <= end
            <= input.len() {
            input.subrange(start as int, end as int)
        } else {
            Seq::empty()
        }) + "` found at "@ + span_text(Span1 { start_ix: start, end_ix: end }),
        ParseError::NumberOutOfRange { start, end } => "Number out of range at "@ + span_text(
            Span1 { start_ix: start, end_ix: end },
        ),
    }
}

pub fn span_to_string(s: &Span1) -> (r: String)
    ensures
        r@ == span_text(*s),
{
    let mut r = decimal_string(s.start_ix as u64);
    r.append(":");
    r.append(decimal_string(s.end_ix as u64).as_str());
    r
}

/// Text, a name, and more text.
pub fn around(before: &str, name: &String, after: &str) -> (r: String)
    ensures
        r@ == before@ + name@ + after@,
{
    let mut r = String::from_str(before);
    r.append(name.as_str());
    r.append(after);
    r
}

/// An error of the semantic check as text.
pub fn compile_error_message(e: &CompileErr<Span1>) -> (r: String)
    ensures
        r@ == compile_error_text(*e),
{
    proof {
        reveal_strlit("");
        assert(""@ =~= Seq::<char>::empty());
    }
    let (mut r, location) = match e {
        CompileErr::UnboundVariable { unbound, location } => {
            let r = around("Unbound variable ", unbound, "");
            assert(r@ =~= fault_text(e.fault()));
            (r, location)
        },
        CompileErr::UndefinedFunction { undefined, location } => {
            let r = around("Undefined function ", undefined, "");
            assert(r@ =~= fault_text(e.fault()));
            (r, location)
        },
        CompileErr::DuplicateBinding { duplicated_name, location } => (
            around("Variable ", duplicated_name, " is bound twice in the same let"),
            location,
        ),
        CompileErr::Overflow { num, location } => (
            around("Number literal ", &signed_decimal_string(*num), " does not fit in 63 bits"),
            location,
        ),
        CompileErr::DuplicateFunName { duplicated_name, location } => (
            around("Function ", duplicated_name, " is defined twice in the same group"),
            location,
        ),
        CompileErr::DuplicateArgName { duplicated_name, location } => (
            around("Parameter ", duplicated_name, " is used twice in the same function"),
            location,
        ),
        CompileErr::FunctionUsedAsValue { function_name, location } => (
            around("Function ", function_name, " is used as a value"),
            location,
        ),
        CompileErr::ValueUsedAsFunction { variable_name, location } => (
            around("Variable ", variable_name, " is called as a function"),
            location,
        ),
        CompileErr::FunctionCalledWrongArity {
            function_name,
            correct_arity,
            arity_used,
            location,
        } => {
            let mut r = around("Function ", function_name, " of ");
            r.append(decimal_string(*correct_arity as u64).as_str());
            r.append(" arguments is called with ");
            r.append(decimal_string(*arity_used as u64).as_str());
            (r, location)
        },
    };
    r.append(" at ");
    r.append(span_to_string(location).as_str());
    r
}

/// An expectation that was not met, as text.
pub fn expected_message(who: &String, what: &str, got: &String, msg: &String) -> (r: String)
    ensures
        r@ == who@ + what@ + got@ + " in "@ + msg@,
{
    let mut r = who.clone();
    r.append(what);
    r.append(got.as_str());
    r.append(" in ");
    r.append(msg.as_str());
    r
}

/// A run-time error of the interpreter as text.
pub fn interp_error_message(e: &InterpErr) -> (r: String)
    ensures
        r@ == interp_error_text(e@),
{
    match e {
        InterpErr::ExpectedNum { who, got, msg } => expected_message(
            who,
            " expected a number, but got ",
            got,
            msg,
        ),
        InterpErr::ExpectedBool { who, got, msg } => expected_message(
            who,
            " expected a boolean, but got ",
            got,
            msg,
        ),
        InterpErr::ExpectedFun { who, got, msg } => expected_message(
            who,
            " expected a function, but got ",
            got,
            msg,
        ),
        InterpErr::Overflow { msg } => around("Operation ", msg, " overflowed"),
        InterpErr::Write { msg } => {
            proof {
                reveal_strlit("");
                assert(""@ =~= Seq::<char>::empty());
            }
            let r = around("I/O Error when printing: ", msg, "");
            assert(r@ =~= interp_error_text(e@));
            r
        },
        InterpErr::ArityErr { expected_arity, num_provided } => {
            let mut r = String::from_str("Function expecting ");
            r.append(decimal_string(*expected_arity as u64).as_str());
            r.append(" arguments called with ");
            r.append(decimal_string(*num_provided as u64).as_str());
            r.append(" arguments");
            r
        },
        InterpErr::Stuck { msg } => {
            proof {
                reveal_strlit("");
                assert(""@ =~= Seq::<char>::empty());
            }
            let r = around("The program is stuck: ", msg, "");
            assert(r@ =~= interp_error_text(e@));
            r
        },
        InterpErr::OutOfFuel => String::from_str(
            "The program did not end within the steps it was given",
        ),
    }
}

/// An error of the parser as text.
pub fn parse_error_message(e: &ParseError, input: &str) -> (r: String)
    ensures
        r@ == parse_error_text(*e, input@),
{
    match e {
        ParseError::InvalidToken { location } => {
            let mut r = String::from_str("Invalid token at ");
            r.append(decimal_string(*location as u64).as_str());
            r
        },
        ParseError::UnrecognizedEof { location } => {
            let mut r = String::from_str("Unrecognized EOF found at ");
            r.append(decimal_string(*location as u64).as_str());
            r
        },
        ParseError::UnrecognizedToken { start, end } => {
            let mut r = String::from_str("Unrecognized token `");
            if *start <= *end && *end <= input.unicode_len() {
                r.append(input.substring_char(*start, *end));
            } else {
                assert(r@ + Seq::<char>::empty() =~= r@);
            }
            r.append("` found at ");
            r.append(span_to_string(&Span1 { start_ix: *start, end_ix: *end }).as_str());
            r
        },
        ParseError::NumberOutOfRange { start, end } => {
            let mut r = String::from_str("Number out of range at ");
            r.append(span_to_string(&Span1 { start_ix: *start, end_ix: *end }).as_str());
            r
        },
    }
}

} // verus!
