//! The data model: the surface expression tree, the sequential (A-normal)
//! form, and the ghost terms that the contracts of every pass speak about.

use vstd::prelude::*;

verus! {

/// A name as the specifications see it.
pub type Name = Seq<char>;

pub type SurfProg<Ann> = Exp<Ann>;

pub type SurfFunDecl<Ann> = FunDecl<Exp<Ann>, Ann>;

pub type SeqFunDecl<Ann> = FunDecl<SeqExp<Ann>, Ann>;

/// A source range, in characters from the start of the input.
#[derive(Clone, Copy, Debug, PartialEq, Eq, Structural)]
pub struct Span1 {
    pub start_ix: usize,
    pub end_ix: usize,
}

#[derive(Debug, PartialEq, Eq)]
pub struct FunDecl<E, Ann> {
    pub name: String,
    pub parameters: Vec<String>,
    pub body: E,
    pub ann: Ann,
}

#[derive(Debug, PartialEq, Eq)]
pub enum Exp<Ann> {
    Num(i64, Ann),
    Bool(bool, Ann),
    Var(String, Ann),
    Prim(Prim, Vec<Box<Exp<Ann>>>, Ann),
    Let { bindings: Vec<(String, Exp<Ann>)>, body: Box<Exp<Ann>>, ann: Ann },
    If { cond: Box<Exp<Ann>>, thn: Box<Exp<Ann>>, els: Box<Exp<Ann>>, ann: Ann },
    FunDefs { decls: Vec<FunDecl<Exp<Ann>, Ann>>, body: Box<Exp<Ann>>, ann: Ann },
    /// A call as the source program writes it.
    Call(String, Vec<Exp<Ann>>, Ann),
    /// A jump to a function of the enclosing local group.
    InternalTailCall(String, Vec<Exp<Ann>>, Ann),
    /// A call to a top-level function, marked as tail call or not.
    ExternalCall { fun_name: String, args: Vec<Exp<Ann>>, is_tail: bool, ann: Ann },
}

#[derive(Clone, Copy, Debug, PartialEq, Eq, Structural)]
pub enum Prim {
    Add1,
    Sub1,
    Not,
    Print,
    IsBool,
    IsNum,
    Add,
    Sub,
    Mul,
    And,
    Or,
    Lt,
    Gt,
    Le,
    Ge,
    Eq,
    Neq,
}

#[derive(Debug, PartialEq, Eq)]
pub struct SeqProg<Ann> {
    pub funs: Vec<FunDecl<SeqExp<Ann>, Ann>>,
    pub main: SeqExp<Ann>,
    pub ann: Ann,
}

#[derive(Debug, PartialEq, Eq)]
pub enum ImmExp {
    Num(i64),
    Bool(bool),
    Var(String),
}

#[derive(Debug, PartialEq, Eq)]
pub enum SeqExp<Ann> {
    Imm(ImmExp, Ann),
    Prim(Prim, Vec<ImmExp>, Ann),
    Let { var: String, bound_exp: Box<SeqExp<Ann>>, body: Box<SeqExp<Ann>>, ann: Ann },
    /// Local function definitions, reached only by `InternalTailCall`.
    FunDefs { decls: Vec<FunDecl<SeqExp<Ann>, Ann>>, body: Box<SeqExp<Ann>>, ann: Ann },
    If { cond: ImmExp, thn: Box<SeqExp<Ann>>, els: Box<SeqExp<Ann>>, ann: Ann },
    InternalTailCall(String, Vec<ImmExp>, Ann),
    ExternalCall { fun_name: String, args: Vec<ImmExp>, is_tail: bool, ann: Ann },
}

/// A surface expression without its annotations.
pub ghost enum Term {
    Num(i64),
    Bool(bool),
    Var(Name),
    Prim(Prim, Seq<Term>),
    Let(Seq<(Name, Term)>, Box<Term>),
    If(Box<Term>, Box<Term>, Box<Term>),
    FunDefs(Seq<FunTerm>, Box<Term>),
    Call(Name, Seq<Term>),
    InternalTailCall(Name, Seq<Term>),
    ExternalCall(Name, Seq<Term>, bool),
}

/// A function declaration over terms.
pub ghost struct FunTerm {
    pub name: Name,
    pub params: Seq<Name>,
    pub body: Term,
}

/// An immediate operand.
pub ghost enum ImmTerm {
    Num(i64),
    Bool(bool),
    Var(Name),
}

/// A sequential expression without its annotations.
pub ghost enum SeqTerm {
    Imm(ImmTerm),
    Prim(Prim, Seq<ImmTerm>),
    Let(Name, Box<SeqTerm>, Box<SeqTerm>),
    FunDefs(Seq<SeqFunTerm>, Box<SeqTerm>),
    If(ImmTerm, Box<SeqTerm>, Box<SeqTerm>),
    InternalTailCall(Name, Seq<ImmTerm>),
    ExternalCall(Name, Seq<ImmTerm>, bool),
}

pub ghost struct SeqFunTerm {
    pub name: Name,
    pub params: Seq<Name>,
    pub body: SeqTerm,
}

pub ghost struct SeqProgTerm {
    pub funs: Seq<SeqFunTerm>,
    pub main: SeqTerm,
}

/// The names that a vector of strings holds.
pub open spec fn names_of(v: Seq<String>) -> Seq<Name> {
    Seq::new(v.len(), |i: int| v[i]@)
}

impl Prim {
    /// The number of operands the primitive takes.
    pub open spec fn arity(self) -> nat {
        match self {
            Prim::Add1 | Prim::Sub1 | Prim::Not | Prim::Print | Prim::IsBool | Prim::IsNum => 1,
            _ => 2,
        }
    }

    pub fn operand_count(self) -> (n: usize)
        ensures
            n == self.arity(),
    {
        match self {
            Prim::Add1 | Prim::Sub1 | Prim::Not | Prim::Print | Prim::IsBool | Prim::IsNum => 1,
            _ => 2,
        }
    }
}

impl<Ann> Exp<Ann> {
    /// The expression with its annotations dropped.
    pub open spec fn term(&self) -> Term
        decreases self,
    {
        match self {
            Exp::Num(n, _) => Term::Num(*n),
            Exp::Bool(b, _) => Term::Bool(*b),
            Exp::Var(x, _) => Term::Var(x@),
            Exp::Prim(p, es, _) => Term::Prim(*p, boxed_terms(*es)),
            Exp::Let { bindings, body, .. } => Term::Let(
                binding_terms(*bindings),
                Box::new(body.term()),
            ),
            Exp::If { cond, thn, els, .. } => Term::If(
                Box::new(cond.term()),
                Box::new(thn.term()),
                Box::new(els.term()),
            ),
            Exp::FunDefs { decls, body, .. } => Term::FunDefs(
                decl_terms(*decls),
                Box::new(body.term()),
            ),
            Exp::Call(f, es, _) => Term::Call(f@, terms(*es)),
            Exp::InternalTailCall(f, es, _) => Term::InternalTailCall(f@, terms(*es)),
            Exp::ExternalCall { fun_name, args, is_tail, .. } => Term::ExternalCall(
                fun_name@,
                terms(*args),
                *is_tail,
            ),
        }
    }
}

pub open spec fn terms<Ann>(es: Vec<Exp<Ann>>) -> Seq<Term>
    decreases es,
{
    Seq::new(
        es.len() as nat,
        |i: int|
            if 0 <= i < es.len() {
                es[i].term()
            } else {
                Term::Bool(false)
            },
    )
}

pub open spec fn boxed_terms<Ann>(es: Vec<Box<Exp<Ann>>>) -> Seq<Term>
    decreases es,
{
    Seq::new(
        es.len() as nat,
        |i: int|
            if 0 <= i < es.len() {
                es[i].term()
            } else {
                Term::Bool(false)
            },
    )
}

pub open spec fn binding_terms<Ann>(bs: Vec<(String, Exp<Ann>)>) -> Seq<(Name, Term)>
    decreases bs,
{
    Seq::new(
        bs.len() as nat,
        |i: int|
            if 0 <= i < bs.len() {
                (bs[i].0@, bs[i].1.term())
            } else {
                (Seq::empty(), Term::Bool(false))
            },
    )
}

pub open spec fn decl_terms<Ann>(ds: Vec<FunDecl<Exp<Ann>, Ann>>) -> Seq<FunTerm>
    decreases ds,
{
    Seq::new(
        ds.len() as nat,
        |i: int|
            if 0 <= i < ds.len() {
                fun_term(ds[i])
            } else {
                FunTerm { name: Seq::empty(), params: Seq::empty(), body: Term::Bool(false) }
            },
    )
}

pub open spec fn fun_term<Ann>(d: FunDecl<Exp<Ann>, Ann>) -> FunTerm
    decreases d,
{
    FunTerm { name: d.name@, params: names_of(d.parameters@), body: d.body.term() }
}

impl<Ann> View for Exp<Ann> {
    type V = Term;

    open spec fn view(&self) -> Term {
        self.term()
    }
}

impl View for ImmExp {
    type V = ImmTerm;

    open spec fn view(&self) -> ImmTerm {
        match self {
            ImmExp::Num(n) => ImmTerm::Num(*n),
            ImmExp::Bool(b) => ImmTerm::Bool(*b),
            ImmExp::Var(x) => ImmTerm::Var(x@),
        }
    }
}

/// The operands that a vector of immediates holds.
pub open spec fn imm_terms(v: Seq<ImmExp>) -> Seq<ImmTerm> {
    Seq::new(v.len(), |i: int| v[i]@)
}

impl<Ann> SeqExp<Ann> {
    /// The sequential expression with its annotations dropped.
    pub open spec fn term(&self) -> SeqTerm
        decreases self,
    {
        match self {
            SeqExp::Imm(i, _) => SeqTerm::Imm(i@),
            SeqExp::Prim(p, args, _) => SeqTerm::Prim(*p, imm_terms(args@)),
            SeqExp::Let { var, bound_exp, body, .. } => SeqTerm::Let(
                var@,
                Box::new(bound_exp.term()),
                Box::new(body.term()),
            ),
            SeqExp::FunDefs { decls, body, .. } => SeqTerm::FunDefs(
                seq_decl_terms(*decls),
                Box::new(body.term()),
            ),
            SeqExp::If { cond, thn, els, .. } => SeqTerm::If(
                cond@,
                Box::new(thn.term()),
                Box::new(els.term()),
            ),
            SeqExp::InternalTailCall(f, args, _) => SeqTerm::InternalTailCall(f@, imm_terms(args@)),
            SeqExp::ExternalCall { fun_name, args, is_tail, .. } => SeqTerm::ExternalCall(
                fun_name@,
                imm_terms(args@),
                *is_tail,
            ),
        }
    }
}

pub open spec fn seq_decl_terms<Ann>(ds: Vec<FunDecl<SeqExp<Ann>, Ann>>) -> Seq<SeqFunTerm>
    decreases ds,
{
    Seq::new(
        ds.len() as nat,
        |i: int|
            if 0 <= i < ds.len() {
                seq_fun_term(ds[i])
            } else {
                SeqFunTerm {
                    name: Seq::empty(),
                    params: Seq::empty(),
                    body: SeqTerm::Imm(ImmTerm::Bool(false)),
                }
            },
    )
}

pub open spec fn seq_fun_term<Ann>(d: FunDecl<SeqExp<Ann>, Ann>) -> SeqFunTerm
    decreases d,
{
    SeqFunTerm { name: d.name@, params: names_of(d.parameters@), body: d.body.term() }
}

impl<Ann> View for SeqExp<Ann> {
    type V = SeqTerm;

    open spec fn view(&self) -> SeqTerm {
        self.term()
    }
}

impl<Ann> View for SeqProg<Ann> {
    type V = SeqProgTerm;

    open spec fn view(&self) -> SeqProgTerm {
        SeqProgTerm { funs: seq_decl_terms(self.funs), main: self.main.term() }
    }
}

/// A copy of a vector of names.
pub fn copy_names(v: &Vec<String>) -> (r: Vec<String>)
    ensures
        r@ == v@,
{
    let mut out: Vec<String> = Vec::new();
    let mut i: usize = 0;
    while i < v.len()
        invariant
            i <= v.len(),
            out@ == v@.take(i as int),
        decreases v.len() - i,
    {
        out.push(v[i].clone());
        assert(v@.take(i + 1) =~= v@.take(i as int).push(v@[i as int]));
        i += 1;
    }
    assert(v@.take(v.len() as int) =~= v@);
    out
}

impl Clone for ImmExp {
    fn clone(&self) -> (r: Self)
        ensures
            r == *self,
    {
        match self {
            ImmExp::Num(n) => ImmExp::Num(*n),
            ImmExp::Bool(b) => ImmExp::Bool(*b),
            ImmExp::Var(x) => ImmExp::Var(x.clone()),
        }
    }
}

impl<Ann: Clone> Clone for Exp<Ann> {
    fn clone(&self) -> (r: Self)
        ensures
            r@ == self@,
        decreases self,
    {
        match self {
            Exp::Num(n, a) => Exp::Num(*n, a.clone()),
            Exp::Bool(b, a) => Exp::Bool(*b, a.clone()),
            Exp::Var(x, a) => Exp::Var(x.clone(), a.clone()),
            Exp::Prim(p, es, a) => {
                let out = clone_boxed(es);
                Exp::Prim(*p, out, a.clone())
            },
            Exp::Let { bindings, body, ann } => {
                let out = clone_bindings(bindings);
                Exp::Let { bindings: out, body: Box::new((**body).clone()), ann: ann.clone() }
            },
            Exp::If { cond, thn, els, ann } => Exp::If {
                cond: Box::new((**cond).clone()),
                thn: Box::new((**thn).clone()),
                els: Box::new((**els).clone()),
                ann: ann.clone(),
            },
            Exp::FunDefs { decls, body, ann } => {
                let out = clone_decls(decls);
                Exp::FunDefs { decls: out, body: Box::new((**body).clone()), ann: ann.clone() }
            },
            Exp::Call(f, es, a) => {
                let out = clone_exps(es);
                Exp::Call(f.clone(), out, a.clone())
            },
            Exp::InternalTailCall(f, es, a) => {
                let out = clone_exps(es);
                Exp::InternalTailCall(f.clone(), out, a.clone())
            },
            Exp::ExternalCall { fun_name, args, is_tail, ann } => {
                let out = clone_exps(args);
                Exp::ExternalCall {
                    fun_name: fun_name.clone(),
                    args: out,
                    is_tail: *is_tail,
                    ann: ann.clone(),
                }
            },
        }
    }
}

/// A copy of a vector of expressions.
pub fn clone_exps<Ann: Clone>(es: &Vec<Exp<Ann>>) -> (r: Vec<Exp<Ann>>)
    ensures
        terms(r) == terms(*es),
    decreases es,
{
    let mut out: Vec<Exp<Ann>> = Vec::new();
    let mut i: usize = 0;
    while i < es.len()
        invariant
            i <= es.len(),
            out.len() == i,
            forall|j: int| 0 <= j < i ==> out[j].term() == es[j].term(),
        decreases es.len() - i,
    {
        out.push(es[i].clone());
        i += 1;
    }
    assert(terms(out) =~= terms(*es));
    out
}

/// A copy of a vector of boxed expressions.
pub fn clone_boxed<Ann: Clone>(es: &Vec<Box<Exp<Ann>>>) -> (r: Vec<Box<Exp<Ann>>>)
    ensures
        boxed_terms(r) == boxed_terms(*es),
    decreases es,
{
    let mut out: Vec<Box<Exp<Ann>>> = Vec::new();
    let mut i: usize = 0;
    while i < es.len()
        invariant
            i <= es.len(),
            out.len() == i,
            forall|j: int| 0 <= j < i ==> out[j].term() == es[j].term(),
        decreases es.len() - i,
    {
        out.push(Box::new((*es[i]).clone()));
        i += 1;
    }
    assert(boxed_terms(out) =~= boxed_terms(*es));
    out
}

/// A copy of a vector of bindings.
pub fn clone_bindings<Ann: Clone>(bs: &Vec<(String, Exp<Ann>)>) -> (r: Vec<(String, Exp<Ann>)>)
    ensures
        binding_terms(r) == binding_terms(*bs),
    decreases bs,
{
    let mut out: Vec<(String, Exp<Ann>)> = Vec::new();
    let mut i: usize = 0;
    while i < bs.len()
        invariant
            i <= bs.len(),
            out.len() == i,
            forall|j: int|
                0 <= j < i ==> out[j].0@ == bs[j].0@ && out[j].1.term() == bs[j].1.term(),
        decreases bs.len() - i,
    {
        out.push((bs[i].0.clone(), bs[i].1.clone()));
        i += 1;
    }
    assert(binding_terms(out) =~= binding_terms(*bs));
    out
}

/// A copy of a vector of function declarations.
pub fn clone_decls<Ann: Clone>(ds: &Vec<FunDecl<Exp<Ann>, Ann>>) -> (r: Vec<
    FunDecl<Exp<Ann>, Ann>,
>)
    ensures
        decl_terms(r) == decl_terms(*ds),
    decreases ds,
{
    let mut out: Vec<FunDecl<Exp<Ann>, Ann>> = Vec::new();
    let mut i: usize = 0;
    while i < ds.len()
        invariant
            i <= ds.len(),
            out.len() == i,
            forall|j: int| 0 <= j < i ==> fun_term(out[j]) == fun_term(ds[j]),
        decreases ds.len() - i,
    {
        out.push(
            FunDecl {
                name: ds[i].name.clone(),
                parameters: copy_names(&ds[i].parameters),
                body: ds[i].body.clone(),
                ann: ds[i].ann.clone(),
            },
        );
        i += 1;
    }
    assert(decl_terms(out) =~= decl_terms(*ds));
    out
}

} // verus!
