//! The runtime value model: a tagged sum of functions, expression trees,
//! quoted lists, symbols, numbers, strings, booleans and null, together with
//! the annotation classes and the error taxonomy. Each executable type has a
//! ghost view — strings become character sequences, vectors become sequences —
//! and the contracts of the whole crate speak over those views.

use vstd::prelude::*;
use crate::fraction::Fraction;

verus! {

/// The native procedures of the standard library, by name.
#[derive(Clone, Copy, PartialEq, Eq, Structural, Debug)]
pub enum Builtin {
    Add,
    Sub,
    Mul,
    Div,
    Rem,
    Pow,
    Concat,
    Print,
    PrintSlot,
    DebugOp,
    Input,
    EqOp,
    NeOp,
    GtOp,
    GeOp,
    LtOp,
    LeOp,
    AndOp,
    OrOp,
    NotOp,
    Cast,
    TypeOf,
    EvalOp,
    Define,
    Lambda,
    IfOp,
    Cond,
    TryOp,
    Car,
    Cdr,
    Range,
    MapOp,
    Filter,
    Reduce,
    Reverse,
    Len,
    Repeat,
    Join,
    Split,
    ErrorOp,
    Exit,
    Identity,
}

/// A type annotation class; the wildcard `any` is represented as absence.
#[derive(Clone, Copy, PartialEq, Eq, Structural, Debug)]
pub enum Class {
    Function,
    List,
    Symbol,
    Number,
    String,
    Bool,
    Null,
}

/// A callable value: a native procedure or a user-defined function of
/// parameter atoms and body lines.
#[derive(Debug)]
pub enum Function {
    BuiltIn(Builtin),
    UserDefined(Vec<Expr>, Vec<Type>),
}

/// A runtime value.
#[derive(Debug)]
pub enum Type {
    Function(Function),
    Expr(Vec<Expr>),
    List(Vec<Expr>),
    Symbol(String),
    Number(Fraction),
    String(String),
    Bool(bool),
    Null,
}

/// A value with an optional annotation, as the parser produces.
#[derive(Debug)]
pub struct Expr {
    pub expr: Type,
    pub annotate: Option<Class>,
}

/// The ghost view of a `Function`.
#[verifier::ext_equal]
pub enum FunctionV {
    BuiltIn(Builtin),
    UserDefined(Seq<ExprV>, Seq<TypeV>),
}

/// The ghost view of a `Type`.
#[verifier::ext_equal]
pub enum TypeV {
    Function(FunctionV),
    Expr(Seq<ExprV>),
    List(Seq<ExprV>),
    Symbol(Seq<char>),
    Number(Fraction),
    String(Seq<char>),
    Bool(bool),
    Null,
}

/// The ghost view of an `Expr`.
#[verifier::ext_equal]
pub struct ExprV {
    pub expr: TypeV,
    pub annotate: Option<Class>,
}

pub open spec fn type_view(t: Type) -> TypeV
    decreases t,
{
    match t {
        Type::Function(f) => TypeV::Function(fun_view(f)),
        Type::Expr(v) => TypeV::Expr(exprs_view(v@)),
        Type::List(v) => TypeV::List(exprs_view(v@)),
        Type::Symbol(s) => TypeV::Symbol(s@),
        Type::Number(f) => TypeV::Number(f),
        Type::String(s) => TypeV::String(s@),
        Type::Bool(b) => TypeV::Bool(b),
        Type::Null => TypeV::Null,
    }
}

pub open spec fn fun_view(f: Function) -> FunctionV
    decreases f,
{
    match f {
        Function::BuiltIn(b) => FunctionV::BuiltIn(b),
        Function::UserDefined(params, body) => FunctionV::UserDefined(
            exprs_view(params@),
            types_view(body@),
        ),
    }
}

pub open spec fn expr_view(e: Expr) -> ExprV
    decreases e,
{
    ExprV { expr: type_view(e.expr), annotate: e.annotate }
}

pub open spec fn exprs_view(s: Seq<Expr>) -> Seq<ExprV>
    decreases s,
{
    if s.len() == 0 {
        Seq::empty()
    } else {
        seq![expr_view(s[0])].add(exprs_view(s.skip(1)))
    }
}

pub open spec fn types_view(s: Seq<Type>) -> Seq<TypeV>
    decreases s,
{
    if s.len() == 0 {
        Seq::empty()
    } else {
        seq![type_view(s[0])].add(types_view(s.skip(1)))
    }
}

impl View for Type {
    type V = TypeV;

    open spec fn view(&self) -> TypeV {
        type_view(*self)
    }
}

impl View for Expr {
    type V = ExprV;

    open spec fn view(&self) -> ExprV {
        expr_view(*self)
    }
}

impl View for Function {
    type V = FunctionV;

    open spec fn view(&self) -> FunctionV {
        fun_view(*self)
    }
}

/// A view of a sequence of values is the sequence of views, pointwise.
pub proof fn lemma_exprs_view_props(s: Seq<Expr>)
    ensures
        exprs_view(s).len() == s.len(),
        forall|i: int| 0 <= i < s.len() ==> exprs_view(s)[i] == expr_view(#[trigger] s[i]),
    decreases s,
{
    if s.len() > 0 {
        lemma_exprs_view_props(s.skip(1));
        assert forall|i: int| 0 <= i < s.len() implies exprs_view(s)[i] == expr_view(
            #[trigger] s[i],
        ) by {
            if i > 0 {
                assert(s.skip(1)[i - 1] == s[i]);
                assert(exprs_view(s)[i] == exprs_view(s.skip(1))[i - 1]);
            }
        }
    }
}

pub proof fn lemma_types_view_props(s: Seq<Type>)
    ensures
        types_view(s).len() == s.len(),
        forall|i: int| 0 <= i < s.len() ==> types_view(s)[i] == type_view(#[trigger] s[i]),
    decreases s,
{
    if s.len() > 0 {
        lemma_types_view_props(s.skip(1));
        assert forall|i: int| 0 <= i < s.len() implies types_view(s)[i] == type_view(
            #[trigger] s[i],
        ) by {
            if i > 0 {
                assert(s.skip(1)[i - 1] == s[i]);
                assert(types_view(s)[i] == types_view(s.skip(1))[i - 1]);
            }
        }
    }
}

/// Deep copy of a vector of annotated expressions.
pub fn clone_exprs(v: &Vec<Expr>) -> (r: Vec<Expr>)
    ensures
        exprs_view(r@) == exprs_view(v@),
    decreases *v,
{
    let mut out: Vec<Expr> = Vec::new();
    let n = v.len();
    let mut i: usize = 0;
    while i < n
        invariant
            i <= n,
            n == v@.len(),
            out@.len() == i,
            forall|j: int| 0 <= j < i ==> expr_view(#[trigger] out@[j]) == expr_view(v@[j]),
        decreases n - i,
    {
        let c = (&v[i]).clone();
        out.push(c);
        i = i + 1;
    }
    proof {
        lemma_exprs_view_props(v@);
        lemma_exprs_view_props(out@);
        assert forall|j: int| 0 <= j < exprs_view(out@).len() implies exprs_view(out@)[j]
            == exprs_view(v@)[j] by {
            assert(expr_view(out@[j]) == expr_view(v@[j]));
        }
        assert(exprs_view(out@) =~= exprs_view(v@));
    }
    out
}

/// Deep copy of a vector of values.
pub fn clone_types(v: &Vec<Type>) -> (r: Vec<Type>)
    ensures
        types_view(r@) == types_view(v@),
    decreases *v,
{
    let mut out: Vec<Type> = Vec::new();
    let n = v.len();
    let mut i: usize = 0;
    while i < n
        invariant
            i <= n,
            n == v@.len(),
            out@.len() == i,
            forall|j: int| 0 <= j < i ==> type_view(#[trigger] out@[j]) == type_view(v@[j]),
        decreases n - i,
    {
        let c = (&v[i]).clone();
        out.push(c);
        i = i + 1;
    }
    proof {
        lemma_types_view_props(v@);
        lemma_types_view_props(out@);
        assert forall|j: int| 0 <= j < types_view(out@).len() implies types_view(out@)[j]
            == types_view(v@)[j] by {
            assert(type_view(out@[j]) == type_view(v@[j]));
        }
        assert(types_view(out@) =~= types_view(v@));
    }
    out
}

impl Clone for Expr {
    /// Deep copy; the view is unchanged.
    fn clone(&self) -> (r: Self)
        ensures
            r@ == self@,
        decreases self,
    {
        Expr { expr: self.expr.clone(), annotate: self.annotate }
    }
}

impl Clone for Type {
    /// Deep copy; the view is unchanged.
    fn clone(&self) -> (r: Self)
        ensures
            r@ == self@,
        decreases self,
    {
        match self {
            Type::Function(f) => Type::Function(f.clone()),
            Type::Expr(v) => Type::Expr(clone_exprs(v)),
            Type::List(v) => Type::List(clone_exprs(v)),
            Type::Symbol(s) => Type::Symbol(s.clone()),
            Type::Number(f) => Type::Number(*f),
            Type::String(s) => Type::String(s.clone()),
            Type::Bool(b) => Type::Bool(*b),
            Type::Null => Type::Null,
        }
    }
}

impl Clone for Function {
    /// Deep copy; the view is unchanged.
    fn clone(&self) -> (r: Self)
        ensures
            r@ == self@,
        decreases self,
    {
        match self {
            Function::BuiltIn(b) => Function::BuiltIn(*b),
            Function::UserDefined(params, body) => Function::UserDefined(
                clone_exprs(params),
                clone_types(body),
            ),
        }
    }
}

impl Default for Type {
    /// The default value is null.
    fn default() -> (r: Self)
        ensures
            r@ == TypeV::Null,
    {
        Type::Null
    }
}

impl Default for Expr {
    /// The default is an unannotated null.
    fn default() -> (r: Self)
        ensures
            r@ == (ExprV { expr: TypeV::Null, annotate: None }),
    {
        Expr { expr: Type::Null, annotate: None }
    }
}

/// What went wrong: a tokenizer or parser rejection, a call of the wrong
/// length, a failed annotation check, or a failure a built-in raised.
#[derive(Debug)]
pub enum GradiaError {
    Runtime(String),
    Function(usize, usize),
    Type(Type, String),
    Syntax(String),
}

/// The ghost view of an error.
#[verifier::ext_equal]
pub enum GradiaErrorV {
    Runtime(Seq<char>),
    Function(int, int),
    Type(TypeV, Seq<char>),
    Syntax(Seq<char>),
}

pub open spec fn err_view(e: GradiaError) -> GradiaErrorV {
    match e {
        GradiaError::Runtime(m) => GradiaErrorV::Runtime(m@),
        GradiaError::Function(got, want) => GradiaErrorV::Function(got as int, want as int),
        GradiaError::Type(t, c) => GradiaErrorV::Type(type_view(t), c@),
        GradiaError::Syntax(m) => GradiaErrorV::Syntax(m@),
    }
}

impl View for GradiaError {
    type V = GradiaErrorV;

    open spec fn view(&self) -> GradiaErrorV {
        err_view(*self)
    }
}

} // verus!
