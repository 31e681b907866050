//! The compiler from end to end: check, rename, lift, sequentialize,
//! generate.

use crate::big_step::{cut_short, lemma_interpreter_agrees, lemma_interpreter_ends, out_of_fuel};
use crate::big_step::{shown, too_many, unmangled};
use crate::checker::{agrees, check_prog, CompileErr, program_error};
use crate::compile::{compilable, compile_seq_prog, frame_bytes, funs_labels, labels, MAX_FRAME};
use crate::compile::{program_compilable, program_text, slots};
use crate::interp::interpret;
use crate::lambda_lift::{lambda_lift, lambda_lift_term};
use crate::lift_scopes::lemma_lift_ready;
use crate::lift_sound::lemma_lifting_keeps_meaning;
use crate::limits::{add_counts, count_binders, count_decls_temps, count_temps, is_surface};
use crate::limits::program_fits;
use crate::parsed::lemma_parsed_program;
use crate::parser::{parse_text, ParseError, Syntax, syntax_of};
use crate::plain_names::{lemma_lift_plain, lemma_uniq_plain};
use crate::rename_sound::lemma_renaming_keeps_meaning;
use crate::scopes::{lemma_checked_scoped, lemma_uniq_liftable, surface};
use crate::semantics::{beval, eval, seval};
use crate::seq_scopes::{lemma_seq_compilable, lemma_seq_funs};
use crate::seq_sound::{funs_ok, lemma_sequentializer_sound};
use crate::sequentializer::{decls_temps, seq_prog, seq_prog_term, temps};
use crate::syntax::{decl_terms, Exp, Name, SeqProgTerm, Span1, SurfProg, Term};
use crate::uniquify::{binders, uniquify_term};
use vstd::prelude::*;

verus! {

/// The program in sequential form: renamed, lifted and sequentialized.
pub open spec fn lowered(t: Term) -> SeqProgTerm {
    seq_prog_term(lambda_lift_term(t).1, lambda_lift_term(t).0)
}

/// The assembly text of a program.
pub open spec fn compiled_text(t: Term) -> Seq<char> {
    program_text(lowered(t))
}

/// Whether the names that a program binds and the fresh names of its
/// sequential form can be numbered in 32 bits.
pub open spec fn countable(t: Term) -> bool {
    &&& binders(t) <= u32::MAX
    &&& decls_temps(lambda_lift_term(t).1) + temps(lambda_lift_term(t).0) <= u32::MAX
}

/// Whether a program in sequential form is within the limits of the code
/// generator: every frame and every list of parameters is within the
/// largest frame, and the labels can be numbered in 32 bits.
pub open spec fn frames_fit(p: SeqProgTerm) -> bool {
    &&& forall|k: int|
        0 <= k < p.funs.len() ==> frame_bytes(slots((#[trigger] p.funs[k]).body)) <= MAX_FRAME && 8
            * p.funs[k].params.len() + 8 <= MAX_FRAME
    &&& frame_bytes(slots(p.main)) <= MAX_FRAME
    &&& funs_labels(p.funs) + labels(p.main) <= u32::MAX
}

/// The limits of the machine on a program.
pub open spec fn fits(t: Term) -> bool {
    countable(t) && frames_fit(lowered(t))
}

/// A program that a text can spell and that the check accepts comes out of
/// renaming, lifting and sequentializing with every name it reads bound: the
/// main expression under no name, each function under its parameters.
pub proof fn lemma_checked_program_is_closed<Span>(p: &Exp<Span>)
    requires
        program_error(p) is None,
        surface(p@),
    ensures
        compilable(lowered(p@).main, Seq::empty()),
        forall|k: int|
            0 <= k < lowered(p@).funs.len() ==> compilable(
                (#[trigger] lowered(p@).funs[k]).body,
                lowered(p@).funs[k].params,
            ),
{
    let nothing: Seq<Name> = Seq::empty();
    lemma_checked_scoped(p, Seq::empty());
    lemma_uniq_liftable(p@, Seq::empty(), Seq::empty(), nothing, 0);
    let u = uniquify_term(p@);
    lemma_lift_ready(u, nothing, Seq::empty());
    let (main, gs) = lambda_lift_term(p@);
    lemma_seq_funs(gs, 0);
    lemma_seq_compilable(main, nothing, decls_temps(gs), true);
}

/// Renaming and lifting keep the meaning of a program that a text can
/// spell and that the check accepts: what is left of it, with the
/// functions lifted out of it, prints the same and comes to the same
/// value or the same error as the program with its local functions,
/// whatever number of nested calls may be made and whatever was printed
/// before.
pub proof fn lemma_lifted_program_keeps_meaning<Span>(p: &Exp<Span>, fuel: nat, out: Seq<char>)
    requires
        program_error(p) is None,
        surface(p@),
    ensures
        eval(lambda_lift_term(p@).1, lambda_lift_term(p@).0, Seq::empty(), fuel, out) == beval(
            p@,
            Seq::empty(),
            Seq::empty(),
            fuel,
            out,
        ),
{
    lemma_checked_scoped(p, Seq::empty());
    lemma_lifting_keeps_meaning(p@, fuel, out);
    lemma_renaming_keeps_meaning(p@, fuel, out);
}

/// The sequential form of a program that a text can spell and that the
/// check accepts means what the lifted program means: with the same number
/// of calls allowed, both print the same and come to the same value or to
/// the same error.
pub proof fn lemma_sequential_program_keeps_meaning<Span>(p: &Exp<Span>, fuel: nat, out: Seq<char>)
    requires
        program_error(p) is None,
        surface(p@),
    ensures
        seval(lowered(p@).funs, lowered(p@).main, Seq::empty(), fuel, out) == eval(
            lambda_lift_term(p@).1,
            lambda_lift_term(p@).0,
            Seq::empty(),
            fuel,
            out,
        ),
{
    let nothing: Seq<Name> = Seq::empty();
    lemma_checked_scoped(p, Seq::empty());
    lemma_uniq_liftable(p@, Seq::empty(), Seq::empty(), nothing, 0);
    let u = uniquify_term(p@);
    lemma_lift_ready(u, nothing, Seq::empty());
    lemma_uniq_plain(p@, Seq::empty(), 0);
    lemma_lift_plain(u, nothing, Seq::empty());
    let (main, gs) = lambda_lift_term(p@);
    assert(funs_ok(gs));
    lemma_sequentializer_sound(gs, main, fuel, out);
}

/// Lift soundness: on a program that a text can spell and that the check
/// accepts, whatever the interpreter ends with in `fuel` steps, unless it
/// is cut short for want of steps or because its store of closures is
/// full, is what the renamed and lifted program comes to with `fuel`
/// nested calls allowed: the same was printed, and then the value; or the
/// error is the same. No variable of the program may be named as the
/// interpreter names a function.
pub proof fn lemma_lift_soundness<Span>(p: &Exp<Span>, fuel: nat, out: Seq<char>)
    requires
        program_error(p) is None,
        surface(p@),
        unmangled(p@),
    ensures
        cut_short(interpret(p@, out, fuel)) || interpret(p@, out, fuel) == shown(
            eval(lambda_lift_term(p@).1, lambda_lift_term(p@).0, Seq::empty(), fuel, out),
        ),
{
    lemma_interpreter_agrees(p@, fuel, out);
    lemma_lifted_program_keeps_meaning(p, fuel, out);
}

/// Sequentializer soundness: on a program that a text can spell and that
/// the check accepts, whatever the interpreter ends with in `fuel` steps,
/// unless it is cut short, is what the program in sequential form comes
/// to with `fuel` nested calls allowed.
pub proof fn lemma_sequentializer_soundness<Span>(p: &Exp<Span>, fuel: nat, out: Seq<char>)
    requires
        program_error(p) is None,
        surface(p@),
        unmangled(p@),
    ensures
        cut_short(interpret(p@, out, fuel)) || interpret(p@, out, fuel) == shown(
            seval(lowered(p@).funs, lowered(p@).main, Seq::empty(), fuel, out),
        ),
{
    lemma_lift_soundness(p, fuel, out);
    lemma_sequential_program_keeps_meaning(p, fuel, out);
}

/// The interpreter ends where the lifted program and the program in
/// sequential form do: on a program that a text can spell and that the
/// check accepts, where the lifted program comes to a value or to an error
/// with `n` nested calls allowed, so does the program in sequential form,
/// and the interpreter with the number of steps that the lemma gives, or
/// with more, ends having printed the same and then the value, or with the
/// same error; unless its store of closures is full. With
/// `lemma_lift_soundness` and `lemma_sequentializer_soundness`: the three
/// end alike, or none of them ends.
pub proof fn lemma_all_end_alike<Span>(p: &Exp<Span>, n: nat, out: Seq<char>) -> (k: nat)
    requires
        program_error(p) is None,
        surface(p@),
        unmangled(p@),
        !out_of_fuel(
            eval(lambda_lift_term(p@).1, lambda_lift_term(p@).0, Seq::empty(), n, out),
        ),
    ensures
        seval(lowered(p@).funs, lowered(p@).main, Seq::empty(), n, out) == eval(
            lambda_lift_term(p@).1,
            lambda_lift_term(p@).0,
            Seq::empty(),
            n,
            out,
        ),
        forall|fuel: nat|
            fuel >= k ==> too_many(#[trigger] interpret(p@, out, fuel)) || interpret(p@, out, fuel)
                == shown(
                eval(lambda_lift_term(p@).1, lambda_lift_term(p@).0, Seq::empty(), n, out),
            ),
{
    lemma_lifted_program_keeps_meaning(p, n, out);
    lemma_sequential_program_keeps_meaning(p, n, out);
    lemma_interpreter_ends(p@, n, out)
}

/// The two laws for what the parser reads: on a program that the parser
/// read from a text and that the check accepts, whatever the interpreter
/// ends with in `fuel` steps, unless it is cut short, is what the lifted
/// program and the program in sequential form come to with `fuel` nested
/// calls allowed.
pub proof fn lemma_parsed_program_keeps_meaning(
    input: Seq<char>,
    p: &Exp<Span1>,
    fuel: nat,
    out: Seq<char>,
)
    requires
        input.len() <= usize::MAX,
        parse_text(input) == Ok::<Syntax, ParseError>(syntax_of(p)),
        program_error(p) is None,
    ensures
        surface(p@),
        cut_short(interpret(p@, out, fuel)) || (interpret(p@, out, fuel) == shown(
            eval(lambda_lift_term(p@).1, lambda_lift_term(p@).0, Seq::empty(), fuel, out),
        ) && interpret(p@, out, fuel) == shown(
            seval(lowered(p@).funs, lowered(p@).main, Seq::empty(), fuel, out),
        )),
{
    lemma_parsed_program(input, p);
    lemma_lift_soundness(p, fuel, out);
    lemma_sequentializer_soundness(p, fuel, out);
}

/// Compiles a program to assembly text, or reports its first error.
pub fn compile_to_string<Span>(p: &SurfProg<Span>) -> (r: Result<String, CompileErr<Span>>) where
    Span: Clone,

    requires
        surface(p@),
        fits(p@),
    ensures
        match program_error(p) {
            Some(_) => r is Err && agrees(Err(r->Err_0), program_error(p)),
            None => r matches Ok(text) && text@ == compiled_text(p@),
        },
{
    match check_prog(p) {
        Err(e) => {
            return Err(e);
        },
        Ok(_) => {},
    }
    let (global_functions, main) = lambda_lift(p);
    let program = seq_prog(&global_functions, &main);
    proof {
        lemma_checked_program_is_closed(p);
        assert(program_compilable(program@));
    }
    Ok(compile_seq_prog(&program))
}

/// Why a program was not compiled.
#[derive(Debug, PartialEq, Eq)]
pub enum Refusal<Span> {
    /// The program holds a form that no text can spell.
    Malformed,
    /// The semantic check found an error.
    Invalid(CompileErr<Span>),
    /// The program is beyond the limits of the machine.
    TooLarge,
}

/// Compiles a program to assembly text, whatever the program. It is
/// compiled where a text can spell it, the check accepts it and it is
/// within the limits of the machine; else the result says which of these
/// failed first.
pub fn compile<Span>(p: &SurfProg<Span>) -> (r: Result<String, Refusal<Span>>) where Span: Clone
    ensures
        match r {
            Ok(text) => surface(p@) && program_error(p) is None && fits(p@) && text@
                == compiled_text(p@),
            Err(Refusal::Malformed) => !surface(p@),
            Err(Refusal::Invalid(e)) => surface(p@) && agrees(Err(e), program_error(p)),
            Err(Refusal::TooLarge) => surface(p@) && program_error(p) is None && !fits(p@),
        },
{
    if !is_surface(p) {
        return Err(Refusal::Malformed);
    }
    match check_prog(p) {
        Err(e) => {
            return Err(Refusal::Invalid(e));
        },
        Ok(_) => {},
    }
    match count_binders(p) {
        Some(n) => {
            if n > 0xffff_ffff {
                return Err(Refusal::TooLarge);
            }
        },
        None => {
            return Err(Refusal::TooLarge);
        },
    }
    let (global_functions, main) = lambda_lift(p);
    match add_counts(
        count_decls_temps(&global_functions),
        count_temps(&main),
        Ghost(decls_temps(decl_terms(global_functions))),
        Ghost(temps(main@)),
    ) {
        Some(n) => {
            if n > 0xffff_ffff {
                return Err(Refusal::TooLarge);
            }
        },
        None => {
            return Err(Refusal::TooLarge);
        },
    }
    let program = seq_prog(&global_functions, &main);
    if !program_fits(&program) {
        return Err(Refusal::TooLarge);
    }
    proof {
        lemma_checked_program_is_closed(p);
        assert(program_compilable(program@));
    }
    Ok(compile_seq_prog(&program))
}

} // verus!
