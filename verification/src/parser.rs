//! The grammar of the surface language, as a recursive descent over the
//! tokens of a text. Every node carries the span of its tokens.
//!
//! From the loosest to the tightest: `if`, `let` and `def` take the rest of
//! the expression; then `&&` and `||`, which group to the right; the
//! comparisons, `+` and `-`, `*`, which group to the left; `!`; and at last
//! names, literals, calls and what stands in parentheses.

use crate::lexer::{chars_of, digit, is_digit, lex, Tok, Token, tokenize, tokens_in};
use crate::syntax::{Exp, FunDecl, Name, names_of, Prim, Span1, SurfProg};
use vstd::prelude::*;

verus! {

/// Why a text is no program.
#[derive(Clone, Copy, Debug, PartialEq, Eq, Structural)]
pub enum ParseError {
    /// No token starts at `location`.
    InvalidToken { location: usize },
    /// The text ends where more is expected; `location` is the end of its
    /// last token.
    UnrecognizedEof { location: usize },
    /// The token at `start..end` cannot stand where it does.
    UnrecognizedToken { start: usize, end: usize },
    /// The number at `start..end` does not fit in 64 bits.
    NumberOutOfRange { start: usize, end: usize },
}

/// A surface expression with the span of each node.
pub ghost enum Syntax {
    Num(i64, Span1),
    Bool(bool, Span1),
    Var(Name, Span1),
    Prim(Prim, Seq<Syntax>, Span1),
    Let(Seq<(Name, Syntax)>, Box<Syntax>, Span1),
    If(Box<Syntax>, Box<Syntax>, Box<Syntax>, Span1),
    FunDefs(Seq<FunSyntax>, Box<Syntax>, Span1),
    Call(Name, Seq<Syntax>, Span1),
    InternalTailCall(Name, Seq<Syntax>, Span1),
    ExternalCall(Name, Seq<Syntax>, bool, Span1),
}

pub ghost struct FunSyntax {
    pub name: Name,
    pub params: Seq<Name>,
    pub body: Syntax,
    pub ann: Span1,
}

/// The expression with its spans.
pub open spec fn syntax_of(e: &Exp<Span1>) -> Syntax
    decreases e,
{
    match e {
        Exp::Num(n, a) => Syntax::Num(*n, *a),
        Exp::Bool(b, a) => Syntax::Bool(*b, *a),
        Exp::Var(x, a) => Syntax::Var(x@, *a),
        Exp::Prim(p, es, a) => Syntax::Prim(*p, boxed_syntaxes(es), *a),
        Exp::Let { bindings, body, ann } => Syntax::Let(
            binding_syntaxes(bindings),
            Box::new(syntax_of(body)),
            *ann,
        ),
        Exp::If { cond, thn, els, ann } => Syntax::If(
            Box::new(syntax_of(cond)),
            Box::new(syntax_of(thn)),
            Box::new(syntax_of(els)),
            *ann,
        ),
        Exp::FunDefs { decls, body, ann } => Syntax::FunDefs(
            decl_syntaxes(decls),
            Box::new(syntax_of(body)),
            *ann,
        ),
        Exp::Call(f, es, a) => Syntax::Call(f@, syntaxes(es), *a),
        Exp::InternalTailCall(f, es, a) => Syntax::InternalTailCall(f@, syntaxes(es), *a),
        Exp::ExternalCall { fun_name, args, is_tail, ann } => Syntax::ExternalCall(
            fun_name@,
            syntaxes(args),
            *is_tail,
            *ann,
        ),
    }
}

pub open spec fn syntaxes(es: &Vec<Exp<Span1>>) -> Seq<Syntax>
    decreases es,
{
    Seq::new(
        es.len() as nat,
        |i: int|
            if 0 <= i < es.len() {
                syntax_of(&es[i])
            } else {
                arbitrary()
            },
    )
}

pub open spec fn boxed_syntaxes(es: &Vec<Box<Exp<Span1>>>) -> Seq<Syntax>
    decreases es,
{
    Seq::new(
        es.len() as nat,
        |i: int|
            if 0 <= i < es.len() {
                syntax_of(&*es[i])
            } else {
                arbitrary()
            },
    )
}

pub open spec fn binding_syntaxes(bs: &Vec<(String, Exp<Span1>)>) -> Seq<(Name, Syntax)>
    decreases bs,
{
    Seq::new(
        bs.len() as nat,
        |i: int|
            if 0 <= i < bs.len() {
                (bs[i].0@, syntax_of(&bs[i].1))
            } else {
                arbitrary()
            },
    )
}

pub open spec fn decl_syntaxes(ds: &Vec<FunDecl<Exp<Span1>, Span1>>) -> Seq<FunSyntax>
    decreases ds,
{
    Seq::new(
        ds.len() as nat,
        |i: int|
            if 0 <= i < ds.len() {
                fun_syntax(&ds[i])
            } else {
                arbitrary()
            },
    )
}

pub open spec fn fun_syntax(d: &FunDecl<Exp<Span1>, Span1>) -> FunSyntax
    decreases d,
{
    FunSyntax {
        name: d.name@,
        params: names_of(d.parameters@),
        body: syntax_of(&d.body),
        ann: d.ann,
    }
}

/// The value of a digit.
pub open spec fn digit_value(c: char) -> int {
    c as u32 - 0x30
}

/// The value of a sequence of digits.
pub open spec fn digits_value(cs: Seq<char>) -> int
    decreases cs.len(),
{
    if cs.len() == 0 {
        0
    } else {
        10 * digits_value(cs.drop_last()) + digit_value(cs.last())
    }
}

/// Whether a number token starts with a sign.
pub open spec fn signed_literal(cs: Seq<char>) -> bool {
    cs.len() > 0 && (cs[0] == '-' || cs[0] == '+')
}

/// The digits of a number token.
pub open spec fn literal_digits(cs: Seq<char>) -> Seq<char> {
    if signed_literal(cs) {
        cs.skip(1)
    } else {
        cs
    }
}

pub open spec fn all_digits(cs: Seq<char>) -> bool {
    forall|i: int| 0 <= i < cs.len() ==> is_digit(#[trigger] cs[i])
}

/// The value of a number token: digits, after a sign or not.
pub open spec fn literal_value(cs: Seq<char>) -> Option<int> {
    let digits = literal_digits(cs);
    if digits.len() == 0 || !all_digits(digits) {
        None
    } else if cs[0] == '-' {
        Some(-digits_value(digits))
    } else {
        Some(digits_value(digits))
    }
}

/// The number that a token spells, where it spells one that fits in 64 bits.
pub open spec fn literal_number(cs: Seq<char>) -> Option<i64> {
    match literal_value(cs) {
        Some(v) => if i64::MIN <= v <= i64::MAX {
            Some(v as i64)
        } else {
            None
        },
        None => None,
    }
}

/// The error of the token at `pos`, or of the end of the text.
pub open spec fn unexpected(ts: Seq<Token>, pos: int) -> ParseError {
    if 0 <= pos < ts.len() {
        ParseError::UnrecognizedToken { start: ts[pos].start, end: ts[pos].end }
    } else if ts.len() == 0 {
        ParseError::UnrecognizedEof { location: 0 }
    } else {
        ParseError::UnrecognizedEof { location: ts.last().end }
    }
}

/// Whether the token at `pos` is of this kind.
pub open spec fn at(ts: Seq<Token>, pos: int, kind: Tok) -> bool {
    0 <= pos < ts.len() && ts[pos].kind == kind
}

/// The span of the tokens `from..to`.
pub open spec fn span(ts: Seq<Token>, from: int, to: int) -> Span1 {
    Span1 { start_ix: ts[from].start, end_ix: ts[to - 1].end }
}

/// The text of the token at `pos`.
pub open spec fn text_at(s: Seq<char>, ts: Seq<Token>, pos: int) -> Seq<char> {
    s.subrange(ts[pos].start as int, ts[pos].end as int)
}

pub open spec fn unary_prim(kind: Tok) -> Option<Prim> {
    match kind {
        Tok::Add1 => Some(Prim::Add1),
        Tok::Sub1 => Some(Prim::Sub1),
        Tok::Print => Some(Prim::Print),
        Tok::IsNum => Some(Prim::IsNum),
        Tok::IsBool => Some(Prim::IsBool),
        _ => None,
    }
}

pub open spec fn cmp_prim(kind: Tok) -> Option<Prim> {
    match kind {
        Tok::Less => Some(Prim::Lt),
        Tok::LessEq => Some(Prim::Le),
        Tok::Greater => Some(Prim::Gt),
        Tok::GreaterEq => Some(Prim::Ge),
        Tok::EqEq => Some(Prim::Eq),
        Tok::NotEq => Some(Prim::Neq),
        _ => None,
    }
}

pub open spec fn sum_prim(kind: Tok) -> Option<Prim> {
    match kind {
        Tok::Plus => Some(Prim::Add),
        Tok::Minus => Some(Prim::Sub),
        _ => None,
    }
}

pub open spec fn product_prim(kind: Tok) -> Option<Prim> {
    match kind {
        Tok::Star => Some(Prim::Mul),
        _ => None,
    }
}

pub open spec fn log_prim(kind: Tok) -> Option<Prim> {
    match kind {
        Tok::AndAnd => Some(Prim::And),
        Tok::OrOr => Some(Prim::Or),
        _ => None,
    }
}

/// The operator of a level of left-grouping binary operators: 2 for the
/// comparisons, 1 for `+` and `-`, 0 for `*`.
pub open spec fn level_prim(level: nat, kind: Tok) -> Option<Prim> {
    if level == 2 {
        cmp_prim(kind)
    } else if level == 1 {
        sum_prim(kind)
    } else {
        product_prim(kind)
    }
}

/// An expression that starts at the token `pos`, and the position after it.
pub open spec fn parse_exp(s: Seq<char>, ts: Seq<Token>, pos: int) -> Result<
    (Syntax, int),
    ParseError,
>
    decreases ts.len() - pos, 10nat,
{
    if at(ts, pos, Tok::If) {
        parse_if(s, ts, pos)
    } else if at(ts, pos, Tok::Let) {
        parse_let(s, ts, pos)
    } else if at(ts, pos, Tok::Def) {
        parse_fundefs(s, ts, pos)
    } else {
        parse_log(s, ts, pos)
    }
}

/// `if` condition `:` expression `else` `:` expression.
pub open spec fn parse_if(s: Seq<char>, ts: Seq<Token>, pos: int) -> Result<(Syntax, int), ParseError>
    decreases ts.len() - pos, 9nat,
{
    if !at(ts, pos, Tok::If) {
        Err(unexpected(ts, pos))
    } else {
        match parse_exp(s, ts, pos + 1) {
            Err(e) => Err(e),
            Ok((cond, p1)) => if !at(ts, p1, Tok::Colon) || p1 <= pos {
                Err(unexpected(ts, p1))
            } else {
                match parse_exp(s, ts, p1 + 1) {
                    Err(e) => Err(e),
                    Ok((thn, p2)) => if !at(ts, p2, Tok::Else) {
                        Err(unexpected(ts, p2))
                    } else if !at(ts, p2 + 1, Tok::Colon) || p2 <= pos {
                        Err(unexpected(ts, p2 + 1))
                    } else {
                        match parse_exp(s, ts, p2 + 2) {
                            Err(e) => Err(e),
                            Ok((els, p3)) => Ok(
                                (
                                    Syntax::If(
                                        Box::new(cond),
                                        Box::new(thn),
                                        Box::new(els),
                                        span(ts, pos, p3),
                                    ),
                                    p3,
                                ),
                            ),
                        }
                    },
                }
            },
        }
    }
}

/// `let` bindings `in` expression.
pub open spec fn parse_let(s: Seq<char>, ts: Seq<Token>, pos: int) -> Result<
    (Syntax, int),
    ParseError,
>
    decreases ts.len() - pos, 9nat,
{
    if !at(ts, pos, Tok::Let) {
        Err(unexpected(ts, pos))
    } else {
        match parse_bindings(s, ts, pos + 1, Seq::empty()) {
            Err(e) => Err(e),
            Ok((bs, p1)) => if !at(ts, p1, Tok::In) || p1 <= pos {
                Err(unexpected(ts, p1))
            } else {
                match parse_exp(s, ts, p1 + 1) {
                    Err(e) => Err(e),
                    Ok((body, p2)) => Ok(
                        (Syntax::Let(bs, Box::new(body), span(ts, pos, p2)), p2),
                    ),
                }
            },
        }
    }
}

/// Name `=` expression, and after a comma the like again; `acc` holds the
/// bindings before.
pub open spec fn parse_bindings(
    s: Seq<char>,
    ts: Seq<Token>,
    pos: int,
    acc: Seq<(Name, Syntax)>,
) -> Result<(Seq<(Name, Syntax)>, int), ParseError>
    decreases ts.len() - pos, 8nat,
{
    if !at(ts, pos, Tok::Id) {
        Err(unexpected(ts, pos))
    } else if !at(ts, pos + 1, Tok::Assign) {
        Err(unexpected(ts, pos + 1))
    } else {
        match parse_exp(s, ts, pos + 2) {
            Err(e) => Err(e),
            Ok((value, p1)) => {
                let all = acc.push((text_at(s, ts, pos), value));
                if at(ts, p1, Tok::Comma) && p1 > pos {
                    parse_bindings(s, ts, p1 + 1, all)
                } else {
                    Ok((all, p1))
                }
            },
        }
    }
}

/// Declarations joined by `and`, then `in` and an expression.
pub open spec fn parse_fundefs(s: Seq<char>, ts: Seq<Token>, pos: int) -> Result<
    (Syntax, int),
    ParseError,
>
    decreases ts.len() - pos, 9nat,
{
    match parse_decls(s, ts, pos, Seq::empty()) {
        Err(e) => Err(e),
        Ok((ds, p1)) => if !at(ts, p1, Tok::In) || p1 <= pos {
            Err(unexpected(ts, p1))
        } else {
            match parse_exp(s, ts, p1 + 1) {
                Err(e) => Err(e),
                Ok((body, p2)) => Ok((Syntax::FunDefs(ds, Box::new(body), span(ts, pos, p2)), p2)),
            }
        },
    }
}

/// A declaration, and after `and` the like again; `acc` holds the
/// declarations before.
pub open spec fn parse_decls(s: Seq<char>, ts: Seq<Token>, pos: int, acc: Seq<FunSyntax>) -> Result<
    (Seq<FunSyntax>, int),
    ParseError,
>
    decreases ts.len() - pos, 8nat,
{
    match parse_decl(s, ts, pos) {
        Err(e) => Err(e),
        Ok((d, p1)) => if at(ts, p1, Tok::And) && p1 > pos {
            parse_decls(s, ts, p1 + 1, acc.push(d))
        } else {
            Ok((acc.push(d), p1))
        },
    }
}

/// `def` name `(` parameters `)` `:` expression.
pub open spec fn parse_decl(s: Seq<char>, ts: Seq<Token>, pos: int) -> Result<
    (FunSyntax, int),
    ParseError,
>
    decreases ts.len() - pos, 7nat,
{
    if !at(ts, pos, Tok::Def) {
        Err(unexpected(ts, pos))
    } else if !at(ts, pos + 1, Tok::Id) {
        Err(unexpected(ts, pos + 1))
    } else if !at(ts, pos + 2, Tok::LParen) {
        Err(unexpected(ts, pos + 2))
    } else {
        let (params, p1) = parse_params(s, ts, pos + 3, Seq::empty());
        if !at(ts, p1, Tok::RParen) {
            Err(unexpected(ts, p1))
        } else if !at(ts, p1 + 1, Tok::Colon) || p1 <= pos {
            Err(unexpected(ts, p1 + 1))
        } else {
            match parse_exp(s, ts, p1 + 2) {
                Err(e) => Err(e),
                Ok((body, p2)) => Ok(
                    (
                        FunSyntax {
                            name: text_at(s, ts, pos + 1),
                            params,
                            body,
                            ann: span(ts, pos, p2),
                        },
                        p2,
                    ),
                ),
            }
        }
    }
}

/// Names, each followed by a comma, but for the last, which may be.
pub open spec fn parse_params(s: Seq<char>, ts: Seq<Token>, pos: int, acc: Seq<Name>) -> (
    Seq<Name>,
    int,
)
    decreases ts.len() - pos,
{
    if !at(ts, pos, Tok::Id) {
        (acc, pos)
    } else if at(ts, pos + 1, Tok::Comma) {
        parse_params(s, ts, pos + 2, acc.push(text_at(s, ts, pos)))
    } else {
        (acc.push(text_at(s, ts, pos)), pos + 1)
    }
}

/// The logical operators, which group to the right.
pub open spec fn parse_log(s: Seq<char>, ts: Seq<Token>, pos: int) -> Result<
    (Syntax, int),
    ParseError,
>
    decreases ts.len() - pos, 6nat,
{
    match parse_level(s, ts, pos, 2) {
        Err(e) => Err(e),
        Ok((left, p1)) => if 0 <= p1 < ts.len() && log_prim(ts[p1].kind) is Some && p1 > pos {
            match parse_log(s, ts, p1 + 1) {
                Err(e) => Err(e),
                Ok((right, p2)) => Ok(
                    (
                        Syntax::Prim(log_prim(ts[p1].kind)->0, seq![left, right], span(ts, pos, p2)),
                        p2,
                    ),
                ),
            }
        } else {
            Ok((left, p1))
        },
    }
}

/// A level of binary operators that group to the left: its first operand,
/// and then each operator with its operand.
pub open spec fn parse_level(s: Seq<char>, ts: Seq<Token>, pos: int, level: nat) -> Result<
    (Syntax, int),
    ParseError,
>
    decreases ts.len() - pos, 5nat, level, 1nat,
{
    match parse_operand(s, ts, pos, level) {
        Err(e) => Err(e),
        Ok((left, p1)) => if pos < p1 <= ts.len() {
            parse_level_rest(s, ts, pos, p1, level, left)
        } else {
            Ok((left, p1))
        },
    }
}

/// An operand of a level: an expression of the next tighter level.
pub open spec fn parse_operand(s: Seq<char>, ts: Seq<Token>, pos: int, level: nat) -> Result<
    (Syntax, int),
    ParseError,
>
    decreases ts.len() - pos, 5nat, level, 0nat,
{
    if level == 0 {
        parse_not(s, ts, pos)
    } else {
        parse_level(s, ts, pos, (level - 1) as nat)
    }
}

/// What follows the operands of a level that started at the token `first`
/// and came to `left`.
pub open spec fn parse_level_rest(
    s: Seq<char>,
    ts: Seq<Token>,
    first: int,
    pos: int,
    level: nat,
    left: Syntax,
) -> Result<(Syntax, int), ParseError>
    decreases ts.len() - pos, 5nat, level, 2nat,
{
    if 0 <= pos < ts.len() && level_prim(level, ts[pos].kind) is Some {
        match parse_operand(s, ts, pos + 1, level) {
            Err(e) => Err(e),
            Ok((right, p1)) => if pos < p1 <= ts.len() {
                parse_level_rest(
                    s,
                    ts,
                    first,
                    p1,
                    level,
                    Syntax::Prim(
                        level_prim(level, ts[pos].kind)->0,
                        seq![left, right],
                        span(ts, first, p1),
                    ),
                )
            } else {
                Err(unexpected(ts, p1))
            },
        }
    } else {
        Ok((left, pos))
    }
}

/// `!` before a base expression, or a base expression.
pub open spec fn parse_not(s: Seq<char>, ts: Seq<Token>, pos: int) -> Result<
    (Syntax, int),
    ParseError,
>
    decreases ts.len() - pos, 4nat,
{
    if at(ts, pos, Tok::Bang) {
        match parse_base(s, ts, pos + 1) {
            Err(e) => Err(e),
            Ok((e, p1)) => Ok((Syntax::Prim(Prim::Not, seq![e], span(ts, pos, p1)), p1)),
        }
    } else {
        parse_base(s, ts, pos)
    }
}

/// A name, a literal, a unary primitive or a call with its arguments in
/// parentheses, or an expression in parentheses.
pub open spec fn parse_base(s: Seq<char>, ts: Seq<Token>, pos: int) -> Result<
    (Syntax, int),
    ParseError,
>
    decreases ts.len() - pos, 3nat,
{
    if !(0 <= pos < ts.len()) {
        Err(unexpected(ts, pos))
    } else {
        let kind = ts[pos].kind;
        if kind == Tok::True || kind == Tok::False || kind == Tok::Num {
            literal_at(s, ts, pos)
        } else if kind == Tok::LParen {
            parse_paren(s, ts, pos)
        } else if kind == Tok::Id {
            parse_named(s, ts, pos)
        } else if unary_prim(kind) is Some {
            parse_unary(s, ts, pos)
        } else {
            Err(unexpected(ts, pos))
        }
    }
}

/// The literal at `pos`: `true`, `false` or a number that fits in 64 bits.
pub open spec fn literal_at(s: Seq<char>, ts: Seq<Token>, pos: int) -> Result<
    (Syntax, int),
    ParseError,
> {
    let here = span(ts, pos, pos + 1);
    if ts[pos].kind == Tok::True {
        Ok((Syntax::Bool(true, here), pos + 1))
    } else if ts[pos].kind == Tok::False {
        Ok((Syntax::Bool(false, here), pos + 1))
    } else {
        match literal_number(text_at(s, ts, pos)) {
            Some(n) => Ok((Syntax::Num(n, here), pos + 1)),
            None => Err(ParseError::NumberOutOfRange { start: ts[pos].start, end: ts[pos].end }),
        }
    }
}

/// An expression in parentheses; its span is that of the expression.
pub open spec fn parse_paren(s: Seq<char>, ts: Seq<Token>, pos: int) -> Result<
    (Syntax, int),
    ParseError,
>
    decreases ts.len() - pos, 2nat,
{
    if !(0 <= pos < ts.len()) {
        Err(unexpected(ts, pos))
    } else {
        match parse_exp(s, ts, pos + 1) {
            Err(e) => Err(e),
            Ok((e, p1)) => if at(ts, p1, Tok::RParen) {
                Ok((e, p1 + 1))
            } else {
                Err(unexpected(ts, p1))
            },
        }
    }
}

/// A unary primitive with its operand in parentheses.
pub open spec fn parse_unary(s: Seq<char>, ts: Seq<Token>, pos: int) -> Result<
    (Syntax, int),
    ParseError,
>
    decreases ts.len() - pos, 2nat,
{
    if !(0 <= pos < ts.len()) || unary_prim(ts[pos].kind) is None {
        Err(unexpected(ts, pos))
    } else if !at(ts, pos + 1, Tok::LParen) {
        Err(unexpected(ts, pos + 1))
    } else {
        match parse_exp(s, ts, pos + 2) {
            Err(e) => Err(e),
            Ok((e, p1)) => if at(ts, p1, Tok::RParen) {
                Ok(
                    (
                        Syntax::Prim(unary_prim(ts[pos].kind)->0, seq![e], span(ts, pos, p1 + 1)),
                        p1 + 1,
                    ),
                )
            } else {
                Err(unexpected(ts, p1))
            },
        }
    }
}

/// A name: a call where a parenthesis follows it, else a variable.
pub open spec fn parse_named(s: Seq<char>, ts: Seq<Token>, pos: int) -> Result<
    (Syntax, int),
    ParseError,
>
    decreases ts.len() - pos, 2nat,
{
    if !(0 <= pos < ts.len()) {
        Err(unexpected(ts, pos))
    } else if at(ts, pos + 1, Tok::LParen) {
        match parse_args(s, ts, pos + 2, Seq::empty()) {
            Err(e) => Err(e),
            Ok((args, p1)) => if at(ts, p1, Tok::RParen) {
                Ok((Syntax::Call(text_at(s, ts, pos), args, span(ts, pos, p1 + 1)), p1 + 1))
            } else {
                Err(unexpected(ts, p1))
            },
        }
    } else {
        Ok((Syntax::Var(text_at(s, ts, pos), span(ts, pos, pos + 1)), pos + 1))
    }
}

/// Arguments up to the closing parenthesis: expressions, each followed by a
/// comma, but for the last, which may be.
pub open spec fn parse_args(s: Seq<char>, ts: Seq<Token>, pos: int, acc: Seq<Syntax>) -> Result<
    (Seq<Syntax>, int),
    ParseError,
>
    decreases ts.len() - pos, 11nat,
{
    if at(ts, pos, Tok::RParen) {
        Ok((acc, pos))
    } else {
        match parse_exp(s, ts, pos) {
            Err(e) => Err(e),
            Ok((e, p1)) => if at(ts, p1, Tok::Comma) && p1 > pos {
                parse_args(s, ts, p1 + 1, acc.push(e))
            } else {
                Ok((acc.push(e), p1))
            },
        }
    }
}

/// The program that the tokens spell: one expression, and nothing after it.
pub open spec fn parse_tokens(s: Seq<char>, ts: Seq<Token>) -> Result<Syntax, ParseError> {
    match parse_exp(s, ts, 0) {
        Err(e) => Err(e),
        Ok((e, p)) => if p == ts.len() {
            Ok(e)
        } else {
            Err(unexpected(ts, p))
        },
    }
}

/// The program that a text spells.
pub open spec fn parse_text(s: Seq<char>) -> Result<Syntax, ParseError> {
    match lex(s) {
        Err(location) => Err(ParseError::InvalidToken { location }),
        Ok(ts) => parse_tokens(s, ts),
    }
}

/// A text with its characters and its tokens.
pub struct Source<'a> {
    pub input: &'a str,
    pub chars: Vec<char>,
    pub tokens: Vec<Token>,
}

impl<'a> Source<'a> {
    pub open spec fn well_formed(&self) -> bool {
        &&& self.chars@ == self.input@
        &&& tokens_in(self.tokens@, self.chars@.len())
    }
}

/// Whether a parser reports what the grammar names.
pub open spec fn exp_parsed(
    r: Result<(Exp<Span1>, usize), ParseError>,
    want: Result<(Syntax, int), ParseError>,
) -> bool {
    match (r, want) {
        (Ok((e, p)), Ok((t, q))) => syntax_of(&e) == t && p == q,
        (Err(a), Err(b)) => a == b,
        _ => false,
    }
}

/// Whether a parser that was started at `pos` went ahead.
pub open spec fn advanced<T>(r: Result<(T, usize), ParseError>, pos: usize, len: usize) -> bool {
    r matches Ok((_, p)) ==> pos < p <= len
}

/// The digits of a prefix are worth no more than all the digits.
pub proof fn lemma_digits_value_prefix(cs: Seq<char>, k: int)
    requires
        all_digits(cs),
        0 <= k <= cs.len(),
    ensures
        0 <= digits_value(cs.take(k)) <= digits_value(cs),
    decreases cs.len(),
{
    if cs.len() == 0 {
        assert(cs.take(k) =~= cs);
    } else if k == cs.len() {
        assert(cs.take(k) =~= cs);
        assert(all_digits(cs.drop_last()));
        lemma_digits_value_prefix(cs.drop_last(), k - 1);
        assert(cs.drop_last().take(k - 1) =~= cs.drop_last());
        assert(is_digit(cs[cs.len() - 1]));
    } else {
        assert(all_digits(cs.drop_last()));
        lemma_digits_value_prefix(cs.drop_last(), k);
        assert(cs.drop_last().take(k) =~= cs.take(k));
        assert(is_digit(cs[cs.len() - 1]));
    }
}

/// The number that the characters `start..end` spell.
pub fn parse_number(chars: &Vec<char>, start: usize, end: usize) -> (r: Option<i64>)
    requires
        start < end <= chars.len(),
    ensures
        r == literal_number(chars@.subrange(start as int, end as int)),
{
    let ghost cs = chars@.subrange(start as int, end as int);
    let first = chars[start];
    let negative = first == '-';
    let from = if first == '-' || first == '+' {
        start + 1
    } else {
        start
    };
    let ghost digits = literal_digits(cs);
    assert(cs[0] == first);
    assert(digits =~= chars@.subrange(from as int, end as int));
    if from == end {
        return None;
    }
    let mut mag: u64 = 0;
    let mut i: usize = from;
    assert(digits.take(0) =~= Seq::<char>::empty());
    while i < end
        invariant
            start < end,
            from < end,
            from <= i <= end <= chars.len(),
            cs == chars@.subrange(start as int, end as int),
            digits == literal_digits(cs),
            digits == chars@.subrange(from as int, end as int),
            all_digits(digits.take(i - from)),
            mag == digits_value(digits.take(i - from)),
            mag <= 0x8000_0000_0000_0000,
        decreases end - i,
    {
        let c = chars[i];
        assert(digits[i - from] == c);
        let ghost next = digits.take(i - from + 1);
        assert(next.drop_last() =~= digits.take(i - from));
        assert(next.last() == c);
        if !digit(c) {
            assert(!is_digit(digits[i - from]));
            assert(!all_digits(digits));
            return None;
        }
        assert(all_digits(next)) by {
            assert forall|j: int| 0 <= j < next.len() implies is_digit(
                #[trigger] next[j],
            ) by {
                if j < next.len() - 1 {
                    assert(next[j] == digits.take(i - from)[j]);
                }
            }
        }
        let d: u64 = (c as u32 - 0x30) as u64;
        if mag > (0x8000_0000_0000_0000 - d) / 10 {
            proof {
                assert(10 * mag + d > 0x8000_0000_0000_0000);
                assert(digits_value(next) == 10 * mag + d);
                if all_digits(digits) {
                    lemma_digits_value_prefix(digits, i - from + 1);
                    assert(digits_value(digits) > 0x8000_0000_0000_0000);
                }
            }
            return None;
        }
        mag = 10 * mag + d;
        i += 1;
    }
    assert(digits.take(end - from) =~= digits);
    assert(negative == (cs[0] == '-'));
    if negative {
        if mag == 0x8000_0000_0000_0000 {
            Some(i64::MIN)
        } else {
            Some(-(mag as i64))
        }
    } else if mag == 0x8000_0000_0000_0000 {
        None
    } else {
        Some(mag as i64)
    }
}

/// Whether the token at `pos` is of this kind.
pub fn is_at(src: &Source, pos: usize, kind: Tok) -> (r: bool)
    ensures
        r == at(src.tokens@, pos as int, kind),
{
    pos < src.tokens.len() && src.tokens[pos].kind == kind
}

/// The error of the token at `pos`, or of the end of the text.
pub fn unexpected_at(src: &Source, pos: usize) -> (e: ParseError)
    ensures
        e == unexpected(src.tokens@, pos as int),
{
    if pos < src.tokens.len() {
        ParseError::UnrecognizedToken { start: src.tokens[pos].start, end: src.tokens[pos].end }
    } else if src.tokens.len() == 0 {
        ParseError::UnrecognizedEof { location: 0 }
    } else {
        ParseError::UnrecognizedEof { location: src.tokens[src.tokens.len() - 1].end }
    }
}

/// The span of the tokens `from..to`.
pub fn span_of(src: &Source, from: usize, to: usize) -> (r: Span1)
    requires
        from < to <= src.tokens.len(),
    ensures
        r == span(src.tokens@, from as int, to as int),
{
    Span1 { start_ix: src.tokens[from].start, end_ix: src.tokens[to - 1].end }
}

/// The text of the token at `pos`.
pub fn token_text(src: &Source, pos: usize) -> (r: String)
    requires
        src.well_formed(),
        pos < src.tokens.len(),
    ensures
        r@ == text_at(src.chars@, src.tokens@, pos as int),
{
    let t = src.tokens[pos];
    assert(src.tokens@[pos as int].start < src.tokens@[pos as int].end <= src.chars@.len());
    String::from_str(src.input.substring_char(t.start, t.end))
}

pub fn unary_operator(kind: Tok) -> (r: Option<Prim>)
    ensures
        r == unary_prim(kind),
{
    match kind {
        Tok::Add1 => Some(Prim::Add1),
        Tok::Sub1 => Some(Prim::Sub1),
        Tok::Print => Some(Prim::Print),
        Tok::IsNum => Some(Prim::IsNum),
        Tok::IsBool => Some(Prim::IsBool),
        _ => None,
    }
}

pub fn log_operator(kind: Tok) -> (r: Option<Prim>)
    ensures
        r == log_prim(kind),
{
    match kind {
        Tok::AndAnd => Some(Prim::And),
        Tok::OrOr => Some(Prim::Or),
        _ => None,
    }
}

/// The operator of a level of left-grouping binary operators.
pub fn level_operator(level: u8, kind: Tok) -> (r: Option<Prim>)
    ensures
        r == level_prim(level as nat, kind),
{
    if level == 2 {
        match kind {
            Tok::Less => Some(Prim::Lt),
            Tok::LessEq => Some(Prim::Le),
            Tok::Greater => Some(Prim::Gt),
            Tok::GreaterEq => Some(Prim::Ge),
            Tok::EqEq => Some(Prim::Eq),
            Tok::NotEq => Some(Prim::Neq),
            _ => None,
        }
    } else if level == 1 {
        match kind {
            Tok::Plus => Some(Prim::Add),
            Tok::Minus => Some(Prim::Sub),
            _ => None,
        }
    } else {
        match kind {
            Tok::Star => Some(Prim::Mul),
            _ => None,
        }
    }
}

/// A binary primitive on two operands.
pub fn binary(op: Prim, left: Exp<Span1>, right: Exp<Span1>, ann: Span1) -> (r: Exp<Span1>)
    ensures
        syntax_of(&r) == Syntax::Prim(op, seq![syntax_of(&left), syntax_of(&right)], ann),
{
    let ghost l = syntax_of(&left);
    let ghost rt = syntax_of(&right);
    let es = vec![Box::new(left), Box::new(right)];
    assert(boxed_syntaxes(&es) =~= seq![l, rt]);
    Exp::Prim(op, es, ann)
}

/// A unary primitive on its operand.
pub fn unary(op: Prim, operand: Exp<Span1>, ann: Span1) -> (r: Exp<Span1>)
    ensures
        syntax_of(&r) == Syntax::Prim(op, seq![syntax_of(&operand)], ann),
{
    let ghost o = syntax_of(&operand);
    let es = vec![Box::new(operand)];
    assert(boxed_syntaxes(&es) =~= seq![o]);
    Exp::Prim(op, es, ann)
}

/// An expression that starts at the token `pos`.
pub fn parse_expression(src: &Source, pos: usize) -> (r: Result<(Exp<Span1>, usize), ParseError>)
    requires
        src.well_formed(),
    ensures
        exp_parsed(r, parse_exp(src.chars@, src.tokens@, pos as int)),
        advanced(r, pos, src.tokens.len()),
    decreases src.tokens.len() - pos, 10nat,
{
    if is_at(src, pos, Tok::If) {
        parse_conditional(src, pos)
    } else if is_at(src, pos, Tok::Let) {
        parse_binding_form(src, pos)
    } else if is_at(src, pos, Tok::Def) {
        parse_definitions(src, pos)
    } else {
        parse_logical(src, pos)
    }
}

/// `if` condition `:` expression `else` `:` expression.
pub fn parse_conditional(src: &Source, pos: usize) -> (r: Result<(Exp<Span1>, usize), ParseError>)
    requires
        src.well_formed(),
    ensures
        exp_parsed(r, parse_if(src.chars@, src.tokens@, pos as int)),
        advanced(r, pos, src.tokens.len()),
    decreases src.tokens.len() - pos, 9nat,
{
    if !is_at(src, pos, Tok::If) {
        return Err(unexpected_at(src, pos));
    }
    let (cond, p1) = match parse_expression(src, pos + 1) {
        Err(e) => {
            return Err(e);
        },
        Ok(r) => r,
    };
    if !is_at(src, p1, Tok::Colon) {
        return Err(unexpected_at(src, p1));
    }
    let (thn, p2) = match parse_expression(src, p1 + 1) {
        Err(e) => {
            return Err(e);
        },
        Ok(r) => r,
    };
    if !is_at(src, p2, Tok::Else) {
        return Err(unexpected_at(src, p2));
    }
    if !is_at(src, p2 + 1, Tok::Colon) {
        return Err(unexpected_at(src, p2 + 1));
    }
    let (els, p3) = match parse_expression(src, p2 + 2) {
        Err(e) => {
            return Err(e);
        },
        Ok(r) => r,
    };
    Ok(
        (
            Exp::If {
                cond: Box::new(cond),
                thn: Box::new(thn),
                els: Box::new(els),
                ann: span_of(src, pos, p3),
            },
            p3,
        ),
    )
}

/// `let` bindings `in` expression.
pub fn parse_binding_form(src: &Source, pos: usize) -> (r: Result<(Exp<Span1>, usize), ParseError>)
    requires
        src.well_formed(),
    ensures
        exp_parsed(r, parse_let(src.chars@, src.tokens@, pos as int)),
        advanced(r, pos, src.tokens.len()),
    decreases src.tokens.len() - pos, 9nat,
{
    if !is_at(src, pos, Tok::Let) {
        return Err(unexpected_at(src, pos));
    }
    let start: Vec<(String, Exp<Span1>)> = Vec::new();
    assert(binding_syntaxes(&start) =~= Seq::<(Name, Syntax)>::empty());
    let (bindings, p1) = match parse_binding_list(src, pos + 1, start) {
        Err(e) => {
            return Err(e);
        },
        Ok(r) => r,
    };
    if !is_at(src, p1, Tok::In) {
        return Err(unexpected_at(src, p1));
    }
    let (body, p2) = match parse_expression(src, p1 + 1) {
        Err(e) => {
            return Err(e);
        },
        Ok(r) => r,
    };
    Ok((Exp::Let { bindings, body: Box::new(body), ann: span_of(src, pos, p2) }, p2))
}

/// The bindings of a `let`, after those in `acc`.
pub fn parse_binding_list(src: &Source, pos: usize, acc: Vec<(String, Exp<Span1>)>) -> (r: Result<
    (Vec<(String, Exp<Span1>)>, usize),
    ParseError,
>)
    requires
        src.well_formed(),
    ensures
        match (r, parse_bindings(src.chars@, src.tokens@, pos as int, binding_syntaxes(&acc))) {
            (Ok((bs, p)), Ok((want, q))) => binding_syntaxes(&bs) == want && p == q,
            (Err(a), Err(b)) => a == b,
            _ => false,
        },
        advanced(r, pos, src.tokens.len()),
    decreases src.tokens.len() - pos, 8nat,
{
    if !is_at(src, pos, Tok::Id) {
        return Err(unexpected_at(src, pos));
    }
    if !is_at(src, pos + 1, Tok::Assign) {
        return Err(unexpected_at(src, pos + 1));
    }
    let (value, p1) = match parse_expression(src, pos + 2) {
        Err(e) => {
            return Err(e);
        },
        Ok(r) => r,
    };
    let ghost before = binding_syntaxes(&acc);
    let ghost v = syntax_of(&value);
    let name = token_text(src, pos);
    let mut all = acc;
    all.push((name, value));
    assert(binding_syntaxes(&all) =~= before.push((name@, v)));
    if is_at(src, p1, Tok::Comma) {
        parse_binding_list(src, p1 + 1, all)
    } else {
        Ok((all, p1))
    }
}

/// Declarations joined by `and`, then `in` and an expression.
pub fn parse_definitions(src: &Source, pos: usize) -> (r: Result<(Exp<Span1>, usize), ParseError>)
    requires
        src.well_formed(),
    ensures
        exp_parsed(r, parse_fundefs(src.chars@, src.tokens@, pos as int)),
        advanced(r, pos, src.tokens.len()),
    decreases src.tokens.len() - pos, 9nat,
{
    let start: Vec<FunDecl<Exp<Span1>, Span1>> = Vec::new();
    assert(decl_syntaxes(&start) =~= Seq::<FunSyntax>::empty());
    let (decls, p1) = match parse_declarations(src, pos, start) {
        Err(e) => {
            return Err(e);
        },
        Ok(r) => r,
    };
    if !is_at(src, p1, Tok::In) {
        return Err(unexpected_at(src, p1));
    }
    let (body, p2) = match parse_expression(src, p1 + 1) {
        Err(e) => {
            return Err(e);
        },
        Ok(r) => r,
    };
    Ok((Exp::FunDefs { decls, body: Box::new(body), ann: span_of(src, pos, p2) }, p2))
}

/// The declarations of a group, after those in `acc`.
pub fn parse_declarations(src: &Source, pos: usize, acc: Vec<FunDecl<Exp<Span1>, Span1>>) -> (r:
    Result<(Vec<FunDecl<Exp<Span1>, Span1>>, usize), ParseError>)
    requires
        src.well_formed(),
    ensures
        match (r, parse_decls(src.chars@, src.tokens@, pos as int, decl_syntaxes(&acc))) {
            (Ok((ds, p)), Ok((want, q))) => decl_syntaxes(&ds) == want && p == q,
            (Err(a), Err(b)) => a == b,
            _ => false,
        },
        advanced(r, pos, src.tokens.len()),
    decreases src.tokens.len() - pos, 8nat,
{
    let (d, p1) = match parse_declaration(src, pos) {
        Err(e) => {
            return Err(e);
        },
        Ok(r) => r,
    };
    let ghost before = decl_syntaxes(&acc);
    let ghost dv = fun_syntax(&d);
    let mut all = acc;
    all.push(d);
    assert(decl_syntaxes(&all) =~= before.push(dv));
    if is_at(src, p1, Tok::And) {
        parse_declarations(src, p1 + 1, all)
    } else {
        Ok((all, p1))
    }
}

/// `def` name `(` parameters `)` `:` expression.
pub fn parse_declaration(src: &Source, pos: usize) -> (r: Result<
    (FunDecl<Exp<Span1>, Span1>, usize),
    ParseError,
>)
    requires
        src.well_formed(),
    ensures
        match (r, parse_decl(src.chars@, src.tokens@, pos as int)) {
            (Ok((d, p)), Ok((want, q))) => fun_syntax(&d) == want && p == q,
            (Err(a), Err(b)) => a == b,
            _ => false,
        },
        advanced(r, pos, src.tokens.len()),
    decreases src.tokens.len() - pos, 7nat,
{
    if !is_at(src, pos, Tok::Def) {
        return Err(unexpected_at(src, pos));
    }
    if !is_at(src, pos + 1, Tok::Id) {
        return Err(unexpected_at(src, pos + 1));
    }
    if !is_at(src, pos + 2, Tok::LParen) {
        return Err(unexpected_at(src, pos + 2));
    }
    let name = token_text(src, pos + 1);
    let start: Vec<String> = Vec::new();
    assert(names_of(start@) =~= Seq::<Name>::empty());
    let (parameters, p1) = parse_parameters(src, pos + 3, start);
    if !is_at(src, p1, Tok::RParen) {
        return Err(unexpected_at(src, p1));
    }
    if !is_at(src, p1 + 1, Tok::Colon) {
        return Err(unexpected_at(src, p1 + 1));
    }
    let (body, p2) = match parse_expression(src, p1 + 2) {
        Err(e) => {
            return Err(e);
        },
        Ok(r) => r,
    };
    Ok((FunDecl { name, parameters, body, ann: span_of(src, pos, p2) }, p2))
}

/// The parameters of a declaration, after those in `acc`.
pub fn parse_parameters(src: &Source, pos: usize, acc: Vec<String>) -> (r: (Vec<String>, usize))
    requires
        src.well_formed(),
        pos <= src.tokens.len(),
    ensures
        (names_of(r.0@), r.1 as int) == parse_params(
            src.chars@,
            src.tokens@,
            pos as int,
            names_of(acc@),
        ),
        pos <= r.1 <= src.tokens.len(),
    decreases src.tokens.len() - pos,
{
    if !is_at(src, pos, Tok::Id) {
        return (acc, pos);
    }
    let ghost before = names_of(acc@);
    let name = token_text(src, pos);
    let mut all = acc;
    all.push(name);
    assert(names_of(all@) =~= before.push(name@));
    if is_at(src, pos + 1, Tok::Comma) {
        parse_parameters(src, pos + 2, all)
    } else {
        (all, pos + 1)
    }
}

/// The logical operators, which group to the right.
pub fn parse_logical(src: &Source, pos: usize) -> (r: Result<(Exp<Span1>, usize), ParseError>)
    requires
        src.well_formed(),
    ensures
        exp_parsed(r, parse_log(src.chars@, src.tokens@, pos as int)),
        advanced(r, pos, src.tokens.len()),
    decreases src.tokens.len() - pos, 6nat,
{
    let (left, p1) = match parse_binary_level(src, pos, 2) {
        Err(e) => {
            return Err(e);
        },
        Ok(r) => r,
    };
    if p1 < src.tokens.len() {
        match log_operator(src.tokens[p1].kind) {
            Some(op) => {
                let (right, p2) = match parse_logical(src, p1 + 1) {
                    Err(e) => {
                        return Err(e);
                    },
                    Ok(r) => r,
                };
                return Ok((binary(op, left, right, span_of(src, pos, p2)), p2));
            },
            None => {},
        }
    }
    Ok((left, p1))
}

/// A level of binary operators that group to the left.
pub fn parse_binary_level(src: &Source, pos: usize, level: u8) -> (r: Result<
    (Exp<Span1>, usize),
    ParseError,
>)
    requires
        src.well_formed(),
    ensures
        exp_parsed(r, parse_level(src.chars@, src.tokens@, pos as int, level as nat)),
        advanced(r, pos, src.tokens.len()),
    decreases src.tokens.len() - pos, 5nat, level, 1nat,
{
    let (left, p1) = match parse_level_operand(src, pos, level) {
        Err(e) => {
            return Err(e);
        },
        Ok(r) => r,
    };
    parse_binary_rest(src, pos, p1, level, left)
}

/// An operand of a level.
pub fn parse_level_operand(src: &Source, pos: usize, level: u8) -> (r: Result<
    (Exp<Span1>, usize),
    ParseError,
>)
    requires
        src.well_formed(),
    ensures
        exp_parsed(r, parse_operand(src.chars@, src.tokens@, pos as int, level as nat)),
        advanced(r, pos, src.tokens.len()),
    decreases src.tokens.len() - pos, 5nat, level, 0nat,
{
    if level == 0 {
        parse_negation(src, pos)
    } else {
        parse_binary_level(src, pos, level - 1)
    }
}

/// What follows the operands of a level that started at the token `first`.
pub fn parse_binary_rest(src: &Source, first: usize, pos: usize, level: u8, left: Exp<Span1>) -> (r:
    Result<(Exp<Span1>, usize), ParseError>)
    requires
        src.well_formed(),
        first < pos <= src.tokens.len(),
    ensures
        exp_parsed(
            r,
            parse_level_rest(
                src.chars@,
                src.tokens@,
                first as int,
                pos as int,
                level as nat,
                syntax_of(&left),
            ),
        ),
        r matches Ok((_, p)) ==> pos <= p <= src.tokens.len(),
    decreases src.tokens.len() - pos, 5nat, level, 2nat,
{
    if pos < src.tokens.len() {
        match level_operator(level, src.tokens[pos].kind) {
            Some(op) => {
                let (right, p1) = match parse_level_operand(src, pos + 1, level) {
                    Err(e) => {
                        return Err(e);
                    },
                    Ok(r) => r,
                };
                let joined = binary(op, left, right, span_of(src, first, p1));
                return parse_binary_rest(src, first, p1, level, joined);
            },
            None => {},
        }
    }
    Ok((left, pos))
}

/// `!` before a base expression, or a base expression.
pub fn parse_negation(src: &Source, pos: usize) -> (r: Result<(Exp<Span1>, usize), ParseError>)
    requires
        src.well_formed(),
    ensures
        exp_parsed(r, parse_not(src.chars@, src.tokens@, pos as int)),
        advanced(r, pos, src.tokens.len()),
    decreases src.tokens.len() - pos, 4nat,
{
    if is_at(src, pos, Tok::Bang) {
        let (e, p1) = match parse_base_expression(src, pos + 1) {
            Err(e) => {
                return Err(e);
            },
            Ok(r) => r,
        };
        Ok((unary(Prim::Not, e, span_of(src, pos, p1)), p1))
    } else {
        parse_base_expression(src, pos)
    }
}

/// A literal: `true`, `false` or a number.
pub fn parse_literal(src: &Source, pos: usize) -> (r: Result<(Exp<Span1>, usize), ParseError>)
    requires
        src.well_formed(),
        pos < src.tokens.len(),
        src.tokens[pos as int].kind == Tok::True || src.tokens[pos as int].kind == Tok::False
            || src.tokens[pos as int].kind == Tok::Num,
    ensures
        exp_parsed(r, literal_at(src.chars@, src.tokens@, pos as int)),
        advanced(r, pos, src.tokens.len()),
{
    let t = src.tokens[pos];
    let here = span_of(src, pos, pos + 1);
    assert(src.tokens@[pos as int].start < src.tokens@[pos as int].end <= src.chars@.len());
    if t.kind == Tok::True {
        Ok((Exp::Bool(true, here), pos + 1))
    } else if t.kind == Tok::False {
        Ok((Exp::Bool(false, here), pos + 1))
    } else {
        match parse_number(&src.chars, t.start, t.end) {
            Some(n) => Ok((Exp::Num(n, here), pos + 1)),
            None => Err(ParseError::NumberOutOfRange { start: t.start, end: t.end }),
        }
    }
}

/// An expression in parentheses.
pub fn parse_parenthesized(src: &Source, pos: usize) -> (r: Result<(Exp<Span1>, usize), ParseError>)
    requires
        src.well_formed(),
        pos < src.tokens.len(),
    ensures
        exp_parsed(r, parse_paren(src.chars@, src.tokens@, pos as int)),
        advanced(r, pos, src.tokens.len()),
    decreases src.tokens.len() - pos, 2nat,
{
    let (e, p1) = match parse_expression(src, pos + 1) {
        Err(e) => {
            return Err(e);
        },
        Ok(r) => r,
    };
    if is_at(src, p1, Tok::RParen) {
        Ok((e, p1 + 1))
    } else {
        Err(unexpected_at(src, p1))
    }
}

/// A unary primitive with its operand in parentheses.
pub fn parse_unary_call(src: &Source, pos: usize, op: Prim) -> (r: Result<
    (Exp<Span1>, usize),
    ParseError,
>)
    requires
        src.well_formed(),
        pos < src.tokens.len(),
        unary_prim(src.tokens[pos as int].kind) == Some(op),
    ensures
        exp_parsed(r, parse_unary(src.chars@, src.tokens@, pos as int)),
        advanced(r, pos, src.tokens.len()),
    decreases src.tokens.len() - pos, 2nat,
{
    if !is_at(src, pos + 1, Tok::LParen) {
        return Err(unexpected_at(src, pos + 1));
    }
    let (e, p1) = match parse_expression(src, pos + 2) {
        Err(e) => {
            return Err(e);
        },
        Ok(r) => r,
    };
    if is_at(src, p1, Tok::RParen) {
        Ok((unary(op, e, span_of(src, pos, p1 + 1)), p1 + 1))
    } else {
        Err(unexpected_at(src, p1))
    }
}

/// A call: a name and its arguments in parentheses.
pub fn parse_call(src: &Source, pos: usize) -> (r: Result<(Exp<Span1>, usize), ParseError>)
    requires
        src.well_formed(),
        pos < src.tokens.len(),
        at(src.tokens@, pos + 1, Tok::LParen),
    ensures
        exp_parsed(r, parse_named(src.chars@, src.tokens@, pos as int)),
        advanced(r, pos, src.tokens.len()),
    decreases src.tokens.len() - pos, 1nat,
{
    let start: Vec<Exp<Span1>> = Vec::new();
    assert(syntaxes(&start) =~= Seq::<Syntax>::empty());
    let parsed = parse_arguments(src, pos + 2, start);
    match parsed {
        Err(e) => Err(e),
        Ok((args, p1)) => {
            if is_at(src, p1, Tok::RParen) {
                let name = token_text(src, pos);
                let ann = span_of(src, pos, p1 + 1);
                let ghost av = syntaxes(&args);
                let call = Exp::Call(name, args, ann);
                assert(syntax_of(&call) == Syntax::Call(name@, av, ann));
                Ok((call, p1 + 1))
            } else {
                Err(unexpected_at(src, p1))
            }
        },
    }
}

/// A name: a call where a parenthesis follows it, else a variable.
pub fn parse_name(src: &Source, pos: usize) -> (r: Result<(Exp<Span1>, usize), ParseError>)
    requires
        src.well_formed(),
        pos < src.tokens.len(),
    ensures
        exp_parsed(r, parse_named(src.chars@, src.tokens@, pos as int)),
        advanced(r, pos, src.tokens.len()),
    decreases src.tokens.len() - pos, 2nat,
{
    if is_at(src, pos + 1, Tok::LParen) {
        parse_call(src, pos)
    } else {
        let name = token_text(src, pos);
        let ann = span_of(src, pos, pos + 1);
        Ok((Exp::Var(name, ann), pos + 1))
    }
}

/// A name, a literal, a unary primitive or a call, or an expression in
/// parentheses.
pub fn parse_base_expression(src: &Source, pos: usize) -> (r: Result<
    (Exp<Span1>, usize),
    ParseError,
>)
    requires
        src.well_formed(),
    ensures
        exp_parsed(r, parse_base(src.chars@, src.tokens@, pos as int)),
        advanced(r, pos, src.tokens.len()),
    decreases src.tokens.len() - pos, 3nat,
{
    if pos >= src.tokens.len() {
        return Err(unexpected_at(src, pos));
    }
    let kind = src.tokens[pos].kind;
    if kind == Tok::True || kind == Tok::False || kind == Tok::Num {
        parse_literal(src, pos)
    } else if kind == Tok::LParen {
        parse_parenthesized(src, pos)
    } else if kind == Tok::Id {
        parse_name(src, pos)
    } else {
        match unary_operator(kind) {
            Some(op) => parse_unary_call(src, pos, op),
            None => Err(unexpected_at(src, pos)),
        }
    }
}

/// The arguments of a call, after those in `acc`.
pub fn parse_arguments(src: &Source, pos: usize, acc: Vec<Exp<Span1>>) -> (r: Result<
    (Vec<Exp<Span1>>, usize),
    ParseError,
>)
    requires
        src.well_formed(),
        pos <= src.tokens.len(),
    ensures
        match (r, parse_args(src.chars@, src.tokens@, pos as int, syntaxes(&acc))) {
            (Ok((es, p)), Ok((want, q))) => syntaxes(&es) == want && p == q,
            (Err(a), Err(b)) => a == b,
            _ => false,
        },
        r matches Ok((_, p)) ==> pos <= p <= src.tokens.len(),
    decreases src.tokens.len() - pos, 11nat,
{
    if is_at(src, pos, Tok::RParen) {
        return Ok((acc, pos));
    }
    let (e, p1) = match parse_expression(src, pos) {
        Err(e) => {
            return Err(e);
        },
        Ok(r) => r,
    };
    let ghost before = syntaxes(&acc);
    let ghost ev = syntax_of(&e);
    let mut all = acc;
    all.push(e);
    assert(syntaxes(&all) =~= before.push(ev));
    if is_at(src, p1, Tok::Comma) {
        parse_arguments(src, p1 + 1, all)
    } else {
        Ok((all, p1))
    }
}

/// Whether a parser reports the program that the grammar names.
pub open spec fn program_parsed(
    r: Result<Exp<Span1>, ParseError>,
    want: Result<Syntax, ParseError>,
) -> bool {
    match (r, want) {
        (Ok(e), Ok(t)) => syntax_of(&e) == t,
        (Err(a), Err(b)) => a == b,
        _ => false,
    }
}

/// The program that a text spells: one expression, and nothing after it.
pub fn parse_program(input: &str) -> (r: Result<Exp<Span1>, ParseError>)
    ensures
        program_parsed(r, parse_text(input@)),
{
    let chars = chars_of(input);
    let tokens = match tokenize(&chars) {
        Err(location) => {
            return Err(ParseError::InvalidToken { location });
        },
        Ok(ts) => ts,
    };
    let src = Source { input, chars, tokens };
    match parse_expression(&src, 0) {
        Err(e) => Err(e),
        Ok((e, p)) => if p == src.tokens.len() {
            Ok(e)
        } else {
            Err(unexpected_at(&src, p))
        },
    }
}

/// The parser of expressions.
pub struct ExpParser {
    pub _priv: (),
}

impl ExpParser {
    pub fn new() -> ExpParser {
        ExpParser { _priv: () }
    }

    /// The expression that a text spells.
    pub fn parse(&self, input: &str) -> (r: Result<Exp<Span1>, ParseError>)
        ensures
            program_parsed(r, parse_text(input@)),
    {
        parse_program(input)
    }
}

/// The parser of programs. A program is one expression.
pub struct ProgParser {
    pub _priv: (),
}

impl ProgParser {
    pub fn new() -> ProgParser {
        ProgParser { _priv: () }
    }

    /// The program that a text spells.
    pub fn parse(&self, input: &str) -> (r: Result<SurfProg<Span1>, ParseError>)
        ensures
            program_parsed(r, parse_text(input@)),
    {
        parse_program(input)
    }
}

} // verus!
