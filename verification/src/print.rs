//! The canonical printable form of values, the one the parser can read back,
//! and the user-visible text of errors.

use vstd::prelude::*;
use crate::types::{
    Builtin, Class, Expr, ExprV, Function, FunctionV, GradiaError, GradiaErrorV, Type, TypeV,
    exprs_view, types_view, expr_view, type_view, lemma_exprs_view_props, lemma_types_view_props,
};
use crate::numtext::{int_str, push_u64_decimal, dec_digits};
use crate::text::{chars_of_str, string_from_chars};

verus! {

/// The surface name a built-in is registered under.
pub open spec fn builtin_name(b: Builtin) -> Seq<char> {
    match b {
        Builtin::Add => "+"@,
        Builtin::Sub => "-"@,
        Builtin::Mul => "*"@,
        Builtin::Div => "/"@,
        Builtin::Rem => "%"@,
        Builtin::Pow => "^"@,
        Builtin::Concat => "concat"@,
        Builtin::Print => "print"@,
        Builtin::PrintSlot => "print"@,
        Builtin::DebugOp => "debug"@,
        Builtin::Input => "input"@,
        Builtin::EqOp => "="@,
        Builtin::NeOp => "!="@,
        Builtin::GtOp => ">"@,
        Builtin::GeOp => ">="@,
        Builtin::LtOp => "<"@,
        Builtin::LeOp => "<="@,
        Builtin::AndOp => "&"@,
        Builtin::OrOp => "|"@,
        Builtin::NotOp => "!"@,
        Builtin::Cast => "cast"@,
        Builtin::TypeOf => "type"@,
        Builtin::EvalOp => "eval"@,
        Builtin::Define => "define"@,
        Builtin::Lambda => "lambda"@,
        Builtin::IfOp => "if"@,
        Builtin::Cond => "cond"@,
        Builtin::TryOp => "try"@,
        Builtin::Car => "car"@,
        Builtin::Cdr => "cdr"@,
        Builtin::Range => "range"@,
        Builtin::MapOp => "map"@,
        Builtin::Filter => "filter"@,
        Builtin::Reduce => "reduce"@,
        Builtin::Reverse => "reverse"@,
        Builtin::Len => "len"@,
        Builtin::Repeat => "repeat"@,
        Builtin::Join => "join"@,
        Builtin::Split => "split"@,
        Builtin::ErrorOp => "error"@,
        Builtin::Exit => "exit"@,
        Builtin::Identity => "identity"@,
    }
}

/// The name of an annotation class, as it is written after the colon.
pub open spec fn class_name(c: Class) -> Seq<char> {
    match c {
        Class::Function => "function"@,
        Class::List => "list"@,
        Class::Symbol => "symbol"@,
        Class::Number => "number"@,
        Class::String => "string"@,
        Class::Bool => "bool"@,
        Class::Null => "null"@,
    }
}

/// The canonical printable form of a value.
pub open spec fn print_type(t: TypeV) -> Seq<char>
    decreases t,
{
    match t {
        TypeV::String(s) => seq!['"'].add(s).push('"'),
        TypeV::Number(f) => f.spec_display(),
        TypeV::Bool(b) => if b {
            "true"@
        } else {
            "false"@
        },
        TypeV::Function(FunctionV::UserDefined(args, code)) => "(lambda '("@.add(
            print_exprs(args),
        ).add(") "@).add(print_types(code)).push(')'),
        TypeV::Function(FunctionV::BuiltIn(b)) => "function("@.add(builtin_name(b)).push(')'),
        TypeV::Symbol(v) => v,
        TypeV::List(l) => "'("@.add(print_exprs(l)).push(')'),
        TypeV::Expr(l) => "("@.add(print_exprs(l)).push(')'),
        TypeV::Null => "null"@,
    }
}

/// An annotated expression prints as its value, then a colon and the class
/// when one is present.
pub open spec fn print_expr(e: ExprV) -> Seq<char>
    decreases e,
{
    match e.annotate {
        Some(c) => print_type(e.expr).push(':').add(class_name(c)),
        None => print_type(e.expr),
    }
}

/// Printable forms separated by single spaces.
pub open spec fn print_exprs(s: Seq<ExprV>) -> Seq<char>
    decreases s,
{
    if s.len() == 0 {
        Seq::empty()
    } else if s.len() == 1 {
        print_expr(s[0])
    } else {
        print_expr(s[0]).push(' ').add(print_exprs(s.skip(1)))
    }
}

pub open spec fn print_types(s: Seq<TypeV>) -> Seq<char>
    decreases s,
{
    if s.len() == 0 {
        Seq::empty()
    } else if s.len() == 1 {
        print_type(s[0])
    } else {
        print_type(s[0]).push(' ').add(print_types(s.skip(1)))
    }
}

/// Appends the characters of a string slice.
pub fn push_str_chars(s: &str, out: &mut Vec<char>)
    ensures
        final(out)@ == old(out)@.add(s@),
{
    let cs = chars_of_str(s);
    let n = cs.len();
    let mut i: usize = 0;
    while i < n
        invariant
            i <= n,
            n == cs@.len(),
            cs@ == s@,
            out@ == old(out)@.add(s@.subrange(0, i as int)),
        decreases n - i,
    {
        out.push(cs[i]);
        i = i + 1;
        proof {
            assert(out@ =~= old(out)@.add(s@.subrange(0, i as int)));
        }
    }
    proof {
        assert(out@ =~= old(out)@.add(s@));
    }
}

/// Appends the opaque token of a built-in.
fn push_builtin_name(b: Builtin, out: &mut Vec<char>)
    ensures
        final(out)@ == old(out)@.add(builtin_name(b)),
{
    match b {
        Builtin::Add => push_str_chars("+", out),
        Builtin::Sub => push_str_chars("-", out),
        Builtin::Mul => push_str_chars("*", out),
        Builtin::Div => push_str_chars("/", out),
        Builtin::Rem => push_str_chars("%", out),
        Builtin::Pow => push_str_chars("^", out),
        Builtin::Concat => push_str_chars("concat", out),
        Builtin::Print => push_str_chars("print", out),
        Builtin::PrintSlot => push_str_chars("print", out),
        Builtin::DebugOp => push_str_chars("debug", out),
        Builtin::Input => push_str_chars("input", out),
        Builtin::EqOp => push_str_chars("=", out),
        Builtin::NeOp => push_str_chars("!=", out),
        Builtin::GtOp => push_str_chars(">", out),
        Builtin::GeOp => push_str_chars(">=", out),
        Builtin::LtOp => push_str_chars("<", out),
        Builtin::LeOp => push_str_chars("<=", out),
        Builtin::AndOp => push_str_chars("&", out),
        Builtin::OrOp => push_str_chars("|", out),
        Builtin::NotOp => push_str_chars("!", out),
        Builtin::Cast => push_str_chars("cast", out),
        Builtin::TypeOf => push_str_chars("type", out),
        Builtin::EvalOp => push_str_chars("eval", out),
        Builtin::Define => push_str_chars("define", out),
        Builtin::Lambda => push_str_chars("lambda", out),
        Builtin::IfOp => push_str_chars("if", out),
        Builtin::Cond => push_str_chars("cond", out),
        Builtin::TryOp => push_str_chars("try", out),
        Builtin::Car => push_str_chars("car", out),
        Builtin::Cdr => push_str_chars("cdr", out),
        Builtin::Range => push_str_chars("range", out),
        Builtin::MapOp => push_str_chars("map", out),
        Builtin::Filter => push_str_chars("filter", out),
        Builtin::Reduce => push_str_chars("reduce", out),
        Builtin::Reverse => push_str_chars("reverse", out),
        Builtin::Len => push_str_chars("len", out),
        Builtin::Repeat => push_str_chars("repeat", out),
        Builtin::Join => push_str_chars("join", out),
        Builtin::Split => push_str_chars("split", out),
        Builtin::ErrorOp => push_str_chars("error", out),
        Builtin::Exit => push_str_chars("exit", out),
        Builtin::Identity => push_str_chars("identity", out),
    }
}

/// Appends the name of an annotation class.
pub fn push_class_name(c: Class, out: &mut Vec<char>)
    ensures
        final(out)@ == old(out)@.add(class_name(c)),
{
    match c {
        Class::Function => push_str_chars("function", out),
        Class::List => push_str_chars("list", out),
        Class::Symbol => push_str_chars("symbol", out),
        Class::Number => push_str_chars("number", out),
        Class::String => push_str_chars("string", out),
        Class::Bool => push_str_chars("bool", out),
        Class::Null => push_str_chars("null", out),
    }
}

/// Appends the printable form of a value.
pub fn push_print_type(t: &Type, out: &mut Vec<char>)
    ensures
        final(out)@ == old(out)@.add(print_type(t@)),
    decreases t,
{
    match t {
        Type::String(s) => {
            out.push('"');
            push_str_chars(s.as_str(), out);
            out.push('"');
            proof {
                assert(out@ =~= old(out)@.add(print_type(t@)));
            }
        },
        Type::Number(f) => {
            let d = f.display();
            push_str_chars(d.as_str(), out);
        },
        Type::Bool(b) => {
            if *b {
                push_str_chars("true", out);
            } else {
                push_str_chars("false", out);
            }
        },
        Type::Function(Function::UserDefined(args, code)) => {
            push_str_chars("(lambda '(", out);
            push_print_exprs(args, 0, out);
            push_str_chars(") ", out);
            push_print_types(code, 0, out);
            out.push(')');
            proof {
                assert(exprs_view(args@).skip(0) =~= exprs_view(args@));
                assert(types_view(code@).skip(0) =~= types_view(code@));
                assert(out@ =~= old(out)@.add(print_type(t@)));
            }
        },
        Type::Function(Function::BuiltIn(b)) => {
            push_str_chars("function(", out);
            push_builtin_name(*b, out);
            out.push(')');
            proof {
                assert(out@ =~= old(out)@.add(print_type(t@)));
            }
        },
        Type::Symbol(v) => {
            push_str_chars(v.as_str(), out);
        },
        Type::List(l) => {
            push_str_chars("'(", out);
            push_print_exprs(l, 0, out);
            out.push(')');
            proof {
                assert(exprs_view(l@).skip(0) =~= exprs_view(l@));
                assert(out@ =~= old(out)@.add(print_type(t@)));
            }
        },
        Type::Expr(l) => {
            push_str_chars("(", out);
            push_print_exprs(l, 0, out);
            out.push(')');
            proof {
                assert(exprs_view(l@).skip(0) =~= exprs_view(l@));
                assert(out@ =~= old(out)@.add(print_type(t@)));
            }
        },
        Type::Null => {
            push_str_chars("null", out);
        },
    }
}

/// Appends the printable form of an annotated expression.
pub fn push_print_expr(e: &Expr, out: &mut Vec<char>)
    ensures
        final(out)@ == old(out)@.add(print_expr(e@)),
    decreases e,
{
    push_print_type(&e.expr, out);
    match &e.annotate {
        Some(c) => {
            out.push(':');
            push_class_name(*c, out);
            proof {
                assert(out@ =~= old(out)@.add(print_expr(e@)));
            }
        },
        None => {
        },
    }
}

/// Appends the printable forms of the expressions from `i` on, separated by
/// spaces.
pub fn push_print_exprs(v: &Vec<Expr>, i: usize, out: &mut Vec<char>)
    requires
        i <= v@.len(),
    ensures
        final(out)@ == old(out)@.add(print_exprs(exprs_view(v@).skip(i as int))),
    decreases *v, v@.len() - i,
{
    proof {
        lemma_exprs_view_props(v@);
    }
    if i >= v.len() {
        proof {
            assert(exprs_view(v@).skip(i as int) =~= Seq::<ExprV>::empty());
        }
        return ;
    }
    push_print_expr(&v[i], out);
    proof {
        assert(exprs_view(v@).skip(i as int)[0] == expr_view(v@[i as int]));
    }
    if i + 1 < v.len() {
        out.push(' ');
        push_print_exprs(v, i + 1, out);
        proof {
            assert(exprs_view(v@).skip(i as int).skip(1) =~= exprs_view(v@).skip(i as int + 1));
            assert(out@ =~= old(out)@.add(print_exprs(exprs_view(v@).skip(i as int))));
        }
    } else {
        proof {
            assert(exprs_view(v@).skip(i as int).len() == 1);
            assert(out@ =~= old(out)@.add(print_exprs(exprs_view(v@).skip(i as int))));
        }
    }
}

/// Appends the printable forms of the values from `i` on, separated by
/// spaces.
pub fn push_print_types(v: &Vec<Type>, i: usize, out: &mut Vec<char>)
    requires
        i <= v@.len(),
    ensures
        final(out)@ == old(out)@.add(print_types(types_view(v@).skip(i as int))),
    decreases *v, v@.len() - i,
{
    proof {
        lemma_types_view_props(v@);
    }
    if i >= v.len() {
        proof {
            assert(types_view(v@).skip(i as int) =~= Seq::<TypeV>::empty());
        }
        return ;
    }
    push_print_type(&v[i], out);
    proof {
        assert(types_view(v@).skip(i as int)[0] == type_view(v@[i as int]));
    }
    if i + 1 < v.len() {
        out.push(' ');
        push_print_types(v, i + 1, out);
        proof {
            assert(types_view(v@).skip(i as int).skip(1) =~= types_view(v@).skip(i as int + 1));
            assert(out@ =~= old(out)@.add(print_types(types_view(v@).skip(i as int))));
        }
    } else {
        proof {
            assert(types_view(v@).skip(i as int).len() == 1);
            assert(out@ =~= old(out)@.add(print_types(types_view(v@).skip(i as int))));
        }
    }
}

impl Type {
    /// The canonical printable form, the one the parser reads back.
    pub fn print_form(&self) -> (r: String)
        ensures
            r@ == print_type(self@),
    {
        let mut out: Vec<char> = Vec::new();
        push_print_type(self, &mut out);
        string_from_chars(&out)
    }
}

impl Expr {
    /// The printable form with the annotation suffix, when one is present.
    pub fn print_form(&self) -> (r: String)
        ensures
            r@ == print_expr(self@),
    {
        let mut out: Vec<char> = Vec::new();
        push_print_expr(self, &mut out);
        string_from_chars(&out)
    }
}

/// The user-visible text of an error.
pub open spec fn err_message(e: GradiaErrorV) -> Seq<char> {
    match e {
        GradiaErrorV::Runtime(m) => "Runtime Error! "@.add(m),
        GradiaErrorV::Function(got, want) => "Function Error! the passed arguments length "@.add(
            int_str(got),
        ).add(" is different to expected length "@).add(int_str(want)).add(
            " of the function's arguments"@,
        ),
        GradiaErrorV::Type(t, c) => "Type Error! the result value `"@.add(print_type(t)).add(
            "` is different to expected type `"@,
        ).add(c).push('`'),
        GradiaErrorV::Syntax(m) => "Syntax Error! "@.add(m),
    }
}

impl GradiaError {
    /// Renders the error as its user-visible line.
    pub fn message(&self) -> (r: String)
        ensures
            r@ == err_message(self@),
    {
        let mut out: Vec<char> = Vec::new();
        match self {
            GradiaError::Runtime(m) => {
                push_str_chars("Runtime Error! ", &mut out);
                push_str_chars(m.as_str(), &mut out);
            },
            GradiaError::Function(got, want) => {
                push_str_chars("Function Error! the passed arguments length ", &mut out);
                push_u64_decimal(*got as u64, &mut out);
                push_str_chars(" is different to expected length ", &mut out);
                push_u64_decimal(*want as u64, &mut out);
                push_str_chars(" of the function's arguments", &mut out);
                proof {
                    assert(int_str(*got as int) == dec_digits(*got as nat));
                    assert(int_str(*want as int) == dec_digits(*want as nat));
                }
            },
            GradiaError::Type(t, c) => {
                push_str_chars("Type Error! the result value `", &mut out);
                push_print_type(t, &mut out);
                push_str_chars("` is different to expected type `", &mut out);
                push_str_chars(c.as_str(), &mut out);
                out.push('`');
            },
            GradiaError::Syntax(m) => {
                push_str_chars("Syntax Error! ", &mut out);
                push_str_chars(m.as_str(), &mut out);
            },
        }
        proof {
            assert(out@ =~= err_message(self@));
        }
        string_from_chars(&out)
    }
}

} // verus!
