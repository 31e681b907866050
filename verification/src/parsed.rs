//! What the parser gives: a program that a text can spell, whose names
//! are words.

use crate::big_step::{is_mangled, no_mangled, unmangled};
use crate::lexer::{is_digit, is_letter, is_word_char, lemma_skip_spaces, lemma_token_at};
use crate::lexer::{lemma_word_end, lex, lex_from, sign1, sign2, skip_spaces, Tok, Token, token_at};
use crate::lexer::word_end;
use crate::parser::{at, binding_syntaxes, boxed_syntaxes, decl_syntaxes, FunSyntax, level_prim};
use crate::parser::{log_prim, parse_args, parse_base, parse_bindings, parse_decl, parse_decls};
use crate::parser::{parse_exp, parse_fundefs, parse_if, parse_let, parse_level, parse_level_rest};
use crate::parser::{parse_log, parse_named, parse_not, parse_operand, parse_params, parse_paren};
use crate::parser::{parse_text, parse_unary, ParseError, span, Syntax, syntax_of, syntaxes};
use crate::parser::{text_at, unary_prim};
use crate::scopes::{lemma_surface_parts, surface};
use crate::syntax::{binding_terms, boxed_terms, decl_terms, Exp, FunTerm, Name, Span1, Term, terms};
use vstd::prelude::*;

verus! {

/// Whether a name is made of the characters of words.
pub open spec fn word(x: Name) -> bool {
    forall|i: int| 0 <= i < x.len() ==> is_word_char(#[trigger] x[i])
}

/// Whether every name is made of the characters of words.
pub open spec fn words(xs: Seq<Name>) -> bool {
    forall|i: int| 0 <= i < xs.len() ==> word(#[trigger] xs[i])
}

/// A word is no name under which an environment holds a function.
pub proof fn lemma_word_unmangled(x: Name)
    requires
        word(x),
    ensures
        !is_mangled(x),
{
    reveal_strlit("#fun");
    if is_mangled(x) {
        let k = x.len() - 4;
        assert(x.subrange(k, x.len() as int)[0] == x[k]);
        assert(is_word_char(x[k]));
    }
}

/// Whether the text of every token that is a name is a word.
pub open spec fn words_tokens(s: Seq<char>, ts: Seq<Token>) -> bool {
    forall|k: int|
        0 <= k < ts.len() && (#[trigger] ts[k]).kind == Tok::Id ==> word(
            s.subrange(ts[k].start as int, ts[k].end as int),
        )
}

/// The characters from a place to the end of the word there are
/// characters of words.
pub proof fn lemma_word_chars(s: Seq<char>, i: int)
    requires
        0 <= i <= s.len(),
    ensures
        forall|m: int| i <= m < word_end(s, i) ==> is_word_char(#[trigger] s[m]),
    decreases s.len() - i,
{
    if i < s.len() && is_word_char(s[i]) {
        lemma_word_chars(s, i + 1);
    }
}

/// The text of a token that is a name is a word.
pub proof fn lemma_token_word(s: Seq<char>, i: int)
    requires
        0 <= i < s.len(),
        s.len() <= usize::MAX,
    ensures
        token_at(s, i) matches Some(t) ==> t.kind == Tok::Id ==> word(
            s.subrange(t.start as int, t.end as int),
        ),
{
    reveal(token_at);
    lemma_token_at(s, i);
    lemma_word_chars(s, i);
    lemma_word_end(s, i);
    let c = s[i];
    if is_digit(c) {
    } else if (c == '+' || c == '-') && i + 1 < s.len() && is_digit(s[i + 1]) {
    } else if is_letter(c) {
        let end = word_end(s, i);
        let x = s.subrange(i, end);
        assert forall|m: int| 0 <= m < x.len() implies is_word_char(#[trigger] x[m]) by {
            assert(x[m] == s[i + m]);
        }
    } else if i + 1 < s.len() && sign2(c, s[i + 1]) is Some {
        assert(sign2(c, s[i + 1])->0 != Tok::Id);
    } else {
        assert(sign1(c) != Some(Tok::Id));
    }
}

/// The names among the tokens of a text are words.
pub proof fn lemma_lex_words(s: Seq<char>, i: int, acc: Seq<Token>)
    requires
        0 <= i <= s.len(),
        s.len() <= usize::MAX,
        words_tokens(s, acc),
    ensures
        lex_from(s, i, acc) matches Ok(ts) ==> words_tokens(s, ts),
    decreases s.len() - i,
{
    lemma_skip_spaces(s, i);
    let j = skip_spaces(s, i);
    if 0 <= j < s.len() {
        lemma_token_at(s, j);
        lemma_token_word(s, j);
        if let Some(t) = token_at(s, j) {
            if i < t.end <= s.len() {
                let more = acc.push(t);
                assert forall|k: int|
                    0 <= k < more.len() && (#[trigger] more[k]).kind == Tok::Id implies word(
                    s.subrange(more[k].start as int, more[k].end as int),
                ) by {
                    if k < acc.len() {
                        assert(more[k] == acc[k]);
                    }
                }
                lemma_lex_words(s, t.end as int, more);
            }
        }
    }
}

/// Whether an expression with its spans is one that a text spells: its
/// names are words, every primitive has its operands, and no call is of
/// the forms that only the compiler makes.
pub open spec fn spelled(syn: Syntax) -> bool
    decreases syn,
{
    match syn {
        Syntax::Num(_, _) | Syntax::Bool(_, _) => true,
        Syntax::Var(x, _) => word(x),
        Syntax::Prim(p, es, _) => es.len() == p.arity() && forall|i: int|
            0 <= i < es.len() ==> spelled(#[trigger] es[i]),
        Syntax::Let(bs, body, _) => spelled(*body) && forall|i: int|
            0 <= i < bs.len() ==> word((#[trigger] bs[i]).0) && spelled(bs[i].1),
        Syntax::If(c, a, b, _) => spelled(*c) && spelled(*a) && spelled(*b),
        Syntax::FunDefs(ds, body, _) => spelled(*body) && forall|i: int|
            0 <= i < ds.len() ==> words((#[trigger] ds[i]).params) && spelled(ds[i].body),
        Syntax::Call(_, es, _) => forall|i: int| 0 <= i < es.len() ==> spelled(#[trigger] es[i]),
        Syntax::InternalTailCall(_, _, _) => false,
        Syntax::ExternalCall(_, _, _, _) => false,
    }
}

/// Whether every expression of a list is one that a text spells.
pub open spec fn all_spelled(es: Seq<Syntax>) -> bool {
    forall|i: int| 0 <= i < es.len() ==> spelled(#[trigger] es[i])
}

/// Whether every binding of a list is one that a text spells.
pub open spec fn bindings_spelled(bs: Seq<(Name, Syntax)>) -> bool {
    forall|i: int| 0 <= i < bs.len() ==> word((#[trigger] bs[i]).0) && spelled(bs[i].1)
}

/// Whether every function of a list is one that a text spells.
pub open spec fn decls_spelled(ds: Seq<FunSyntax>) -> bool {
    forall|i: int| 0 <= i < ds.len() ==> words((#[trigger] ds[i]).params) && spelled(ds[i].body)
}

/// One more expression that a text spells.
pub proof fn lemma_all_spelled_push(es: Seq<Syntax>, e: Syntax)
    requires
        all_spelled(es),
        spelled(e),
    ensures
        all_spelled(es.push(e)),
{
    let more = es.push(e);
    assert forall|i: int| 0 <= i < more.len() implies spelled(#[trigger] more[i]) by {
        if i < es.len() {
            assert(more[i] == es[i]);
        }
    }
}

/// An expression that the parser finds is one that a text spells.
pub proof fn lemma_parse_exp(s: Seq<char>, ts: Seq<Token>, pos: int)
    requires
        words_tokens(s, ts),
    ensures
        parse_exp(s, ts, pos) matches Ok((e, _)) ==> spelled(e),
    decreases ts.len() - pos, 10nat,
{
    if at(ts, pos, Tok::If) {
        lemma_parse_if(s, ts, pos);
    } else if at(ts, pos, Tok::Let) {
        lemma_parse_let(s, ts, pos);
    } else if at(ts, pos, Tok::Def) {
        lemma_parse_fundefs(s, ts, pos);
    } else {
        lemma_parse_log(s, ts, pos);
    }
}

pub proof fn lemma_parse_if(s: Seq<char>, ts: Seq<Token>, pos: int)
    requires
        words_tokens(s, ts),
    ensures
        parse_if(s, ts, pos) matches Ok((e, _)) ==> spelled(e),
    decreases ts.len() - pos, 9nat,
{
    if at(ts, pos, Tok::If) {
        lemma_parse_exp(s, ts, pos + 1);
        if let Ok((cond, p1)) = parse_exp(s, ts, pos + 1) {
            if at(ts, p1, Tok::Colon) && p1 > pos {
                lemma_parse_exp(s, ts, p1 + 1);
                if let Ok((thn, p2)) = parse_exp(s, ts, p1 + 1) {
                    if at(ts, p2, Tok::Else) && at(ts, p2 + 1, Tok::Colon) && p2 > pos {
                        lemma_parse_exp(s, ts, p2 + 2);
                    }
                }
            }
        }
    }
}

pub proof fn lemma_parse_let(s: Seq<char>, ts: Seq<Token>, pos: int)
    requires
        words_tokens(s, ts),
    ensures
        parse_let(s, ts, pos) matches Ok((e, _)) ==> spelled(e),
    decreases ts.len() - pos, 9nat,
{
    if at(ts, pos, Tok::Let) {
        lemma_parse_bindings(s, ts, pos + 1, Seq::empty());
        if let Ok((bs, p1)) = parse_bindings(s, ts, pos + 1, Seq::empty()) {
            if at(ts, p1, Tok::In) && p1 > pos {
                lemma_parse_exp(s, ts, p1 + 1);
            }
        }
    }
}

pub proof fn lemma_parse_bindings(
    s: Seq<char>,
    ts: Seq<Token>,
    pos: int,
    acc: Seq<(Name, Syntax)>,
)
    requires
        words_tokens(s, ts),
        bindings_spelled(acc),
    ensures
        parse_bindings(s, ts, pos, acc) matches Ok((bs, _)) ==> bindings_spelled(bs),
    decreases ts.len() - pos, 8nat,
{
    if at(ts, pos, Tok::Id) && at(ts, pos + 1, Tok::Assign) {
        lemma_parse_exp(s, ts, pos + 2);
        if let Ok((value, p1)) = parse_exp(s, ts, pos + 2) {
            let x = text_at(s, ts, pos);
            let all = acc.push((x, value));
            assert(ts[pos].kind == Tok::Id);
            assert forall|i: int| 0 <= i < all.len() implies word((#[trigger] all[i]).0)
                && spelled(all[i].1) by {
                if i < acc.len() {
                    assert(all[i] == acc[i]);
                }
            }
            if at(ts, p1, Tok::Comma) && p1 > pos {
                lemma_parse_bindings(s, ts, p1 + 1, all);
            }
        }
    }
}

pub proof fn lemma_parse_fundefs(s: Seq<char>, ts: Seq<Token>, pos: int)
    requires
        words_tokens(s, ts),
    ensures
        parse_fundefs(s, ts, pos) matches Ok((e, _)) ==> spelled(e),
    decreases ts.len() - pos, 9nat,
{
    lemma_parse_decls(s, ts, pos, Seq::empty());
    if let Ok((ds, p1)) = parse_decls(s, ts, pos, Seq::empty()) {
        if at(ts, p1, Tok::In) && p1 > pos {
            lemma_parse_exp(s, ts, p1 + 1);
        }
    }
}

pub proof fn lemma_parse_decls(s: Seq<char>, ts: Seq<Token>, pos: int, acc: Seq<FunSyntax>)
    requires
        words_tokens(s, ts),
        decls_spelled(acc),
    ensures
        parse_decls(s, ts, pos, acc) matches Ok((ds, _)) ==> decls_spelled(ds),
    decreases ts.len() - pos, 8nat,
{
    lemma_parse_decl(s, ts, pos);
    if let Ok((d, p1)) = parse_decl(s, ts, pos) {
        let all = acc.push(d);
        assert forall|i: int| 0 <= i < all.len() implies words((#[trigger] all[i]).params)
            && spelled(all[i].body) by {
            if i < acc.len() {
                assert(all[i] == acc[i]);
            }
        }
        if at(ts, p1, Tok::And) && p1 > pos {
            lemma_parse_decls(s, ts, p1 + 1, all);
        }
    }
}

pub proof fn lemma_parse_decl(s: Seq<char>, ts: Seq<Token>, pos: int)
    requires
        words_tokens(s, ts),
    ensures
        parse_decl(s, ts, pos) matches Ok((d, _)) ==> words(d.params) && spelled(d.body),
    decreases ts.len() - pos, 7nat,
{
    if at(ts, pos, Tok::Def) && at(ts, pos + 1, Tok::Id) && at(ts, pos + 2, Tok::LParen) {
        lemma_parse_params(s, ts, pos + 3, Seq::empty());
        let (params, p1) = parse_params(s, ts, pos + 3, Seq::empty());
        if at(ts, p1, Tok::RParen) && at(ts, p1 + 1, Tok::Colon) && p1 > pos {
            lemma_parse_exp(s, ts, p1 + 2);
        }
    }
}

pub proof fn lemma_parse_params(s: Seq<char>, ts: Seq<Token>, pos: int, acc: Seq<Name>)
    requires
        words_tokens(s, ts),
        words(acc),
    ensures
        words(parse_params(s, ts, pos, acc).0),
    decreases ts.len() - pos,
{
    if at(ts, pos, Tok::Id) {
        let x = text_at(s, ts, pos);
        let all = acc.push(x);
        assert(ts[pos].kind == Tok::Id);
        assert forall|i: int| 0 <= i < all.len() implies word(#[trigger] all[i]) by {
            if i < acc.len() {
                assert(all[i] == acc[i]);
            }
        }
        if at(ts, pos + 1, Tok::Comma) {
            lemma_parse_params(s, ts, pos + 2, all);
        }
    }
}

pub proof fn lemma_parse_log(s: Seq<char>, ts: Seq<Token>, pos: int)
    requires
        words_tokens(s, ts),
    ensures
        parse_log(s, ts, pos) matches Ok((e, _)) ==> spelled(e),
    decreases ts.len() - pos, 6nat,
{
    lemma_parse_level(s, ts, pos, 2);
    if let Ok((left, p1)) = parse_level(s, ts, pos, 2) {
        if 0 <= p1 < ts.len() && log_prim(ts[p1].kind) is Some && p1 > pos {
            lemma_parse_log(s, ts, p1 + 1);
            if let Ok((right, p2)) = parse_log(s, ts, p1 + 1) {
                let both = seq![left, right];
                assert(both[0] == left && both[1] == right);
            }
        }
    }
}

pub proof fn lemma_parse_level(s: Seq<char>, ts: Seq<Token>, pos: int, level: nat)
    requires
        words_tokens(s, ts),
    ensures
        parse_level(s, ts, pos, level) matches Ok((e, _)) ==> spelled(e),
    decreases ts.len() - pos, 5nat, level, 1nat,
{
    lemma_parse_operand(s, ts, pos, level);
    if let Ok((left, p1)) = parse_operand(s, ts, pos, level) {
        if pos < p1 <= ts.len() {
            lemma_parse_level_rest(s, ts, pos, p1, level, left);
        }
    }
}

pub proof fn lemma_parse_operand(s: Seq<char>, ts: Seq<Token>, pos: int, level: nat)
    requires
        words_tokens(s, ts),
    ensures
        parse_operand(s, ts, pos, level) matches Ok((e, _)) ==> spelled(e),
    decreases ts.len() - pos, 5nat, level, 0nat,
{
    if level == 0 {
        lemma_parse_not(s, ts, pos);
    } else {
        lemma_parse_level(s, ts, pos, (level - 1) as nat);
    }
}

pub proof fn lemma_parse_level_rest(
    s: Seq<char>,
    ts: Seq<Token>,
    first: int,
    pos: int,
    level: nat,
    left: Syntax,
)
    requires
        words_tokens(s, ts),
        spelled(left),
    ensures
        parse_level_rest(s, ts, first, pos, level, left) matches Ok((e, _)) ==> spelled(e),
    decreases ts.len() - pos, 5nat, level, 2nat,
{
    if 0 <= pos < ts.len() && level_prim(level, ts[pos].kind) is Some {
        lemma_parse_operand(s, ts, pos + 1, level);
        if let Ok((right, p1)) = parse_operand(s, ts, pos + 1, level) {
            if pos < p1 <= ts.len() {
                let both = seq![left, right];
                assert(both[0] == left && both[1] == right);
                let joined = Syntax::Prim(
                    level_prim(level, ts[pos].kind)->0,
                    both,
                    span(ts, first, p1),
                );
                assert(spelled(joined));
                lemma_parse_level_rest(s, ts, first, p1, level, joined);
            }
        }
    }
}

pub proof fn lemma_parse_not(s: Seq<char>, ts: Seq<Token>, pos: int)
    requires
        words_tokens(s, ts),
    ensures
        parse_not(s, ts, pos) matches Ok((e, _)) ==> spelled(e),
    decreases ts.len() - pos, 4nat,
{
    if at(ts, pos, Tok::Bang) {
        lemma_parse_base(s, ts, pos + 1);
        if let Ok((e, p1)) = parse_base(s, ts, pos + 1) {
            let one = seq![e];
            assert(one[0] == e);
        }
    } else {
        lemma_parse_base(s, ts, pos);
    }
}

pub proof fn lemma_parse_base(s: Seq<char>, ts: Seq<Token>, pos: int)
    requires
        words_tokens(s, ts),
    ensures
        parse_base(s, ts, pos) matches Ok((e, _)) ==> spelled(e),
    decreases ts.len() - pos, 3nat,
{
    if 0 <= pos < ts.len() {
        let kind = ts[pos].kind;
        if kind == Tok::True || kind == Tok::False || kind == Tok::Num {
        } else if kind == Tok::LParen {
            lemma_parse_paren(s, ts, pos);
        } else if kind == Tok::Id {
            lemma_parse_named(s, ts, pos);
        } else if unary_prim(kind) is Some {
            lemma_parse_unary(s, ts, pos);
        }
    }
}

pub proof fn lemma_parse_paren(s: Seq<char>, ts: Seq<Token>, pos: int)
    requires
        words_tokens(s, ts),
    ensures
        parse_paren(s, ts, pos) matches Ok((e, _)) ==> spelled(e),
    decreases ts.len() - pos, 2nat,
{
    if 0 <= pos < ts.len() {
        lemma_parse_exp(s, ts, pos + 1);
    }
}

pub proof fn lemma_parse_unary(s: Seq<char>, ts: Seq<Token>, pos: int)
    requires
        words_tokens(s, ts),
    ensures
        parse_unary(s, ts, pos) matches Ok((e, _)) ==> spelled(e),
    decreases ts.len() - pos, 2nat,
{
    if 0 <= pos < ts.len() && unary_prim(ts[pos].kind) is Some && at(
        ts,
        pos + 1,
        Tok::LParen,
    ) {
        lemma_parse_exp(s, ts, pos + 2);
        if let Ok((e, p1)) = parse_exp(s, ts, pos + 2) {
            let one = seq![e];
            assert(one[0] == e);
        }
    }
}

pub proof fn lemma_parse_named(s: Seq<char>, ts: Seq<Token>, pos: int)
    requires
        words_tokens(s, ts),
        at(ts, pos, Tok::Id),
    ensures
        parse_named(s, ts, pos) matches Ok((e, _)) ==> spelled(e),
    decreases ts.len() - pos, 2nat,
{
    assert(ts[pos].kind == Tok::Id);
    if at(ts, pos + 1, Tok::LParen) {
        lemma_parse_args(s, ts, pos + 2, Seq::empty());
    }
}

pub proof fn lemma_parse_args(s: Seq<char>, ts: Seq<Token>, pos: int, acc: Seq<Syntax>)
    requires
        words_tokens(s, ts),
        all_spelled(acc),
    ensures
        parse_args(s, ts, pos, acc) matches Ok((es, _)) ==> all_spelled(es),
    decreases ts.len() - pos, 11nat,
{
    if !at(ts, pos, Tok::RParen) {
        lemma_parse_exp(s, ts, pos);
        if let Ok((e, p1)) = parse_exp(s, ts, pos) {
            lemma_all_spelled_push(acc, e);
            if at(ts, p1, Tok::Comma) && p1 > pos {
                lemma_parse_args(s, ts, p1 + 1, acc.push(e));
            }
        }
    }
}

/// The expression without its spans.
pub open spec fn term_of(syn: Syntax) -> Term
    decreases syn,
{
    match syn {
        Syntax::Num(n, _) => Term::Num(n),
        Syntax::Bool(b, _) => Term::Bool(b),
        Syntax::Var(x, _) => Term::Var(x),
        Syntax::Prim(p, es, _) => Term::Prim(p, terms_of(es)),
        Syntax::Let(bs, body, _) => Term::Let(binding_terms_of(bs), Box::new(term_of(*body))),
        Syntax::If(c, a, b, _) => Term::If(
            Box::new(term_of(*c)),
            Box::new(term_of(*a)),
            Box::new(term_of(*b)),
        ),
        Syntax::FunDefs(ds, body, _) => Term::FunDefs(
            decl_terms_of(ds),
            Box::new(term_of(*body)),
        ),
        Syntax::Call(f, es, _) => Term::Call(f, terms_of(es)),
        Syntax::InternalTailCall(f, es, _) => Term::InternalTailCall(f, terms_of(es)),
        Syntax::ExternalCall(f, es, is_tail, _) => Term::ExternalCall(f, terms_of(es), is_tail),
    }
}

pub open spec fn terms_of(es: Seq<Syntax>) -> Seq<Term>
    decreases es,
{
    Seq::new(
        es.len(),
        |i: int|
            if 0 <= i < es.len() {
                term_of(es[i])
            } else {
                Term::Bool(false)
            },
    )
}

pub open spec fn binding_terms_of(bs: Seq<(Name, Syntax)>) -> Seq<(Name, Term)>
    decreases bs,
{
    Seq::new(
        bs.len(),
        |i: int|
            if 0 <= i < bs.len() {
                (bs[i].0, term_of(bs[i].1))
            } else {
                (Seq::empty(), Term::Bool(false))
            },
    )
}

pub open spec fn decl_terms_of(ds: Seq<FunSyntax>) -> Seq<FunTerm>
    decreases ds,
{
    Seq::new(
        ds.len(),
        |i: int|
            if 0 <= i < ds.len() {
                FunTerm { name: ds[i].name, params: ds[i].params, body: term_of(ds[i].body) }
            } else {
                FunTerm { name: Seq::empty(), params: Seq::empty(), body: Term::Bool(false) }
            },
    )
}

/// The view of an expression is the expression without its spans.
pub proof fn lemma_view_of_syntax(e: &Exp<Span1>)
    ensures
        e@ == term_of(syntax_of(e)),
    decreases e,
{
    match e {
        Exp::Num(_, _) => {},
        Exp::Bool(_, _) => {},
        Exp::Var(_, _) => {},
        Exp::Prim(_, es, _) => {
            let a = boxed_terms(*es);
            let b = terms_of(boxed_syntaxes(es));
            assert forall|i: int| 0 <= i < a.len() implies a[i] == b[i] by {
                lemma_view_of_syntax(&*es[i]);
            }
            assert(a =~= b);
        },
        Exp::Let { bindings, body, .. } => {
            let a = binding_terms(*bindings);
            let b = binding_terms_of(binding_syntaxes(bindings));
            assert forall|i: int| 0 <= i < a.len() implies a[i] == b[i] by {
                lemma_view_of_syntax(&bindings[i].1);
            }
            assert(a =~= b);
            lemma_view_of_syntax(body);
        },
        Exp::If { cond, thn, els, .. } => {
            lemma_view_of_syntax(cond);
            lemma_view_of_syntax(thn);
            lemma_view_of_syntax(els);
        },
        Exp::FunDefs { decls, body, .. } => {
            let a = decl_terms(*decls);
            let b = decl_terms_of(decl_syntaxes(decls));
            assert forall|i: int| 0 <= i < a.len() implies a[i] == b[i] by {
                lemma_view_of_syntax(&decls[i].body);
            }
            assert(a =~= b);
            lemma_view_of_syntax(body);
        },
        Exp::Call(_, es, _) => {
            lemma_views_of_syntaxes(es);
        },
        Exp::InternalTailCall(_, es, _) => {
            lemma_views_of_syntaxes(es);
        },
        Exp::ExternalCall { args, .. } => {
            lemma_views_of_syntaxes(args);
        },
    }
}

pub proof fn lemma_views_of_syntaxes(es: &Vec<Exp<Span1>>)
    ensures
        terms(*es) == terms_of(syntaxes(es)),
    decreases es,
{
    let a = terms(*es);
    let b = terms_of(syntaxes(es));
    assert forall|i: int| 0 <= i < a.len() implies a[i] == b[i] by {
        lemma_view_of_syntax(&es[i]);
    }
    assert(a =~= b);
}

/// An expression that a text spells is one that a text can spell, and no
/// variable of it is named as an environment names a function.
pub proof fn lemma_spelled_plain(syn: Syntax)
    requires
        spelled(syn),
    ensures
        surface(term_of(syn)),
        unmangled(term_of(syn)),
    decreases syn,
{
    let t = term_of(syn);
    lemma_surface_parts(t);
    match syn {
        Syntax::Num(_, _) => {},
        Syntax::Bool(_, _) => {},
        Syntax::Var(x, _) => {
            lemma_word_unmangled(x);
        },
        Syntax::Prim(_, es, _) => {
            lemma_all_plain(es);
            match t {
                Term::Prim(_, args) => {
                    assert(args == terms_of(es));
                },
                _ => {},
            }
        },
        Syntax::Let(bs, body, _) => {
            lemma_spelled_plain(*body);
            let tb = binding_terms_of(bs);
            assert forall|i: int| 0 <= i < tb.len() implies surface((#[trigger] tb[i]).1)
                && !is_mangled(tb[i].0) && unmangled(tb[i].1) by {
                lemma_spelled_plain(bs[i].1);
                lemma_word_unmangled(bs[i].0);
            }
            match t {
                Term::Let(xs, _) => {
                    assert(xs == tb);
                },
                _ => {},
            }
        },
        Syntax::If(c, a, b, _) => {
            lemma_spelled_plain(*c);
            lemma_spelled_plain(*a);
            lemma_spelled_plain(*b);
        },
        Syntax::FunDefs(ds, body, _) => {
            lemma_spelled_plain(*body);
            let td = decl_terms_of(ds);
            assert forall|i: int| 0 <= i < td.len() implies surface((#[trigger] td[i]).body)
                && no_mangled(td[i].params) && unmangled(td[i].body) by {
                lemma_spelled_plain(ds[i].body);
                let ps = ds[i].params;
                assert forall|j: int| 0 <= j < ps.len() implies !is_mangled(#[trigger] ps[j]) by {
                    lemma_word_unmangled(ps[j]);
                }
            }
            match t {
                Term::FunDefs(xs, _) => {
                    assert(xs == td);
                },
                _ => {},
            }
        },
        Syntax::Call(_, es, _) => {
            lemma_all_plain(es);
            match t {
                Term::Call(_, args) => {
                    assert(args == terms_of(es));
                },
                _ => {},
            }
        },
        Syntax::InternalTailCall(_, _, _) => {},
        Syntax::ExternalCall(_, _, _, _) => {},
    }
}

pub proof fn lemma_all_plain(es: Seq<Syntax>)
    requires
        all_spelled(es),
    ensures
        terms_of(es).len() == es.len(),
        forall|i: int|
            0 <= i < es.len() ==> surface(#[trigger] terms_of(es)[i]) && unmangled(terms_of(es)[i]),
    decreases es,
{
    assert forall|i: int| 0 <= i < es.len() implies surface(#[trigger] terms_of(es)[i])
        && unmangled(terms_of(es)[i]) by {
        lemma_spelled_plain(es[i]);
    }
}

/// What the parser reads from a text is a program that a text can spell,
/// and no variable of it is named as an environment names a function.
pub proof fn lemma_parsed_program(input: Seq<char>, e: &Exp<Span1>)
    requires
        input.len() <= usize::MAX,
        parse_text(input) == Ok::<Syntax, ParseError>(syntax_of(e)),
    ensures
        surface(e@),
        unmangled(e@),
{
    let none: Seq<Token> = Seq::empty();
    lemma_lex_words(input, 0, none);
    match lex(input) {
        Ok(ts) => {
            lemma_parse_exp(input, ts, 0);
            lemma_spelled_plain(syntax_of(e));
            lemma_view_of_syntax(e);
        },
        Err(_) => {},
    }
}

} // verus!
