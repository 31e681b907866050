//! A whole-program compiler from a small expression language with integers,
//! booleans, `let`, `if`, primitive operators and mutually recursive
//! first-order functions to x86-64 assembly text, together with a reference
//! interpreter. Every pass is executable Rust whose result is pinned down by a
//! specification function over the mathematical view of its input.
//!
//! The passes, in the order in which `driver` runs them: `lexer` and
//! `parser` read a text, `checker` reports its first error, `uniquify`
//! renames its bindings apart, `lambda_lift` makes its local functions
//! top-level ones, `sequentializer` brings it into sequential form, and
//! `compile` generates instructions, which `x86` prints. `limits` holds the
//! bounds within which the passes work, `report` the messages of the errors,
//! `runtime` what the runtime prints, `syntax` and `names` the data.
//!
//! What programs mean: `interp` is the interpreter, an abstract machine;
//! `semantics` is the evaluation of surface, lifted and sequential programs;
//! `machine` is a model of the processor on the generated instructions.
//!
//! What holds of the passes: `uniquify_laws` (renaming twice is renaming
//! once), `big_step`, `rename_sound`, `lift_sound` and `seq_sound` (the
//! interpreter, the renamed, the lifted and the sequential program come to
//! the same), `discipline` and `safety` (generated code keeps the stack
//! pointer and the tags, and traps on overflow), `parsed` (what the parser
//! reads is a program that a text can spell), with `scopes`, `lift_scopes`,
//! `seq_scopes`, `tidy`, `plain_names` and `labels` on the names and labels
//! that the passes make.

pub mod big_step;
pub mod checker;
pub mod compile;
pub mod discipline;
pub mod driver;
pub mod interp;
pub mod labels;
pub mod lambda_lift;
pub mod lexer;
pub mod lift_scopes;
pub mod lift_sound;
pub mod limits;
pub mod machine;
pub mod names;
pub mod parsed;
pub mod parser;
pub mod plain_names;
pub mod rename_sound;
pub mod report;
pub mod runtime;
pub mod safety;
pub mod scopes;
pub mod semantics;
pub mod seq_scopes;
pub mod seq_sound;
pub mod sequentializer;
pub mod syntax;
pub mod tidy;
pub mod uniquify;
pub mod uniquify_laws;
pub mod x86;
