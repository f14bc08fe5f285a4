//! Total coercions from any runtime value to a number, string, boolean, list
//! or type name, and the annotation classes' reading and application.

use vstd::prelude::*;
use vstd::string::*;
use crate::fraction::Fraction;
use crate::types::{
    Builtin, Class, Expr, ExprV, Function, GradiaError, GradiaErrorV, Type, TypeV, clone_exprs,
    expr_view, exprs_view, lemma_exprs_view_props,
};
use crate::print::{print_type, class_name, push_class_name, push_str_chars};
use crate::text::{chars_of_str, trim_chars, string_from_chars, spec_trim};

verus! {

/// The numeric reading of a piece of text: a `p/q` literal, else a decimal
/// literal of the trimmed text, else zero.
pub open spec fn spec_text_number(s: Seq<char>) -> (int, int) {
    match Fraction::spec_from_text(s) {
        Some(p) => p,
        None => match Fraction::spec_from_decimal(spec_trim(s)) {
            Some(p) => p,
            None => (0, 1),
        },
    }
}

/// The numeric reading of any value, as a canonical fraction pair.
pub open spec fn spec_get_number(t: TypeV) -> (int, int)
    decreases t,
{
    match t {
        TypeV::Number(f) => (f.num(), f.den()),
        TypeV::String(s) => spec_text_number(s),
        TypeV::Symbol(s) => spec_text_number(s),
        TypeV::Bool(b) => if b {
            (1, 1)
        } else {
            (0, 1)
        },
        TypeV::Expr(x) => if x.len() == 0 {
            (0, 1)
        } else {
            spec_get_number(x[0].expr)
        },
        TypeV::List(x) => if x.len() == 0 {
            (0, 1)
        } else {
            spec_get_number(x[0].expr)
        },
        TypeV::Function(_) => (0, 1),
        TypeV::Null => (0, 1),
    }
}

/// The string reading of any value.
pub open spec fn spec_get_string(t: TypeV) -> Seq<char> {
    match t {
        TypeV::Number(f) => f.spec_display(),
        TypeV::String(s) => s,
        TypeV::Bool(b) => if b {
            "true"@
        } else {
            "false"@
        },
        TypeV::Symbol(v) => v,
        _ => print_type(t),
    }
}

/// The boolean reading of any value.
pub open spec fn spec_get_bool(t: TypeV) -> bool {
    match t {
        TypeV::Number(f) => f.num() != 0,
        TypeV::String(s) => s.len() != 0,
        TypeV::Symbol(s) => s.len() != 0,
        TypeV::Expr(x) => x.len() != 0,
        TypeV::List(x) => x.len() != 0,
        TypeV::Bool(b) => b,
        TypeV::Function(_) => false,
        TypeV::Null => false,
    }
}

/// The runtime type tag of any value.
pub open spec fn spec_type_name(t: TypeV) -> Seq<char> {
    match t {
        TypeV::Number(_) => "number"@,
        TypeV::String(_) => "string"@,
        TypeV::Bool(_) => "bool"@,
        TypeV::Expr(_) => "expr"@,
        TypeV::Symbol(_) => "symbol"@,
        TypeV::List(_) => "list"@,
        TypeV::Null => "null"@,
        TypeV::Function(_) => "function"@,
    }
}

/// Every value's type name is one of the eight type tags.
pub proof fn lemma_type_name_total(t: TypeV)
    ensures
        spec_type_name(t) == "number"@ || spec_type_name(t) == "string"@ || spec_type_name(t)
            == "bool"@ || spec_type_name(t) == "expr"@ || spec_type_name(t) == "symbol"@
            || spec_type_name(t) == "list"@ || spec_type_name(t) == "null"@ || spec_type_name(t)
            == "function"@,
{
}

/// The list reading of any value: the contents of an expression or list, and
/// a one-element list around anything else.
pub open spec fn spec_get_list(t: TypeV) -> Seq<ExprV> {
    match t {
        TypeV::Expr(e) => e,
        TypeV::List(l) => l,
        _ => seq![ExprV { expr: t, annotate: None }],
    }
}

fn text_number(s: &String) -> (r: Fraction)
    ensures
        (r.num(), r.den()) == spec_text_number(s@),
{
    match Fraction::from(s.clone()) {
        Some(f) => f,
        None => {
            let cs = chars_of_str(s.as_str());
            let t = trim_chars(&cs);
            match Fraction::from_decimal_text(&t) {
                Some(f) => f,
                None => Fraction::zero(),
            }
        },
    }
}

impl Type {
    /// The numeric reading: numbers themselves; text through the fraction and
    /// decimal literals with fallback zero; booleans as one and zero; lists
    /// through their first element; functions and null as zero.
    pub fn get_number(&self) -> (r: Fraction)
        ensures
            (r.num(), r.den()) == spec_get_number(self@),
        decreases self,
    {
        match self {
            Type::Number(n) => *n,
            Type::String(s) => text_number(s),
            Type::Symbol(s) => text_number(s),
            Type::Bool(b) => if *b {
                Fraction::one()
            } else {
                Fraction::zero()
            },
            Type::Expr(x) => {
                proof {
                    lemma_exprs_view_props(x@);
                }
                if x.len() == 0 {
                    Fraction::zero()
                } else {
                    (&x[0].expr).get_number()
                }
            },
            Type::List(x) => {
                proof {
                    lemma_exprs_view_props(x@);
                }
                if x.len() == 0 {
                    Fraction::zero()
                } else {
                    (&x[0].expr).get_number()
                }
            },
            Type::Function(_) => Fraction::zero(),
            Type::Null => Fraction::zero(),
        }
    }

    /// The string reading: numbers display, strings and symbols are
    /// themselves, booleans spell out, and the rest print canonically.
    pub fn get_string(&self) -> (r: String)
        ensures
            r@ == spec_get_string(self@),
    {
        match self {
            Type::Number(n) => n.display(),
            Type::String(s) => s.clone(),
            Type::Bool(b) => if *b {
                String::from_str("true")
            } else {
                String::from_str("false")
            },
            Type::Symbol(v) => v.clone(),
            _ => self.print_form(),
        }
    }

    /// The boolean reading: nonzero, non-empty, or the boolean itself;
    /// functions and null are false.
    pub fn get_bool(&self) -> (r: bool)
        ensures
            r == spec_get_bool(self@),
    {
        match self {
            Type::Number(n) => !n.is_zero(),
            Type::String(s) => s.as_str().unicode_len() != 0,
            Type::Symbol(s) => s.as_str().unicode_len() != 0,
            Type::Expr(x) => x.len() != 0,
            Type::List(x) => x.len() != 0,
            Type::Bool(b) => *b,
            Type::Function(_) => false,
            Type::Null => false,
        }
    }

    /// The runtime type tag, as its name.
    pub fn get_type(&self) -> (r: String)
        ensures
            r@ == spec_type_name(self@),
    {
        match self {
            Type::Number(_) => String::from_str("number"),
            Type::String(_) => String::from_str("string"),
            Type::Bool(_) => String::from_str("bool"),
            Type::Expr(_) => String::from_str("expr"),
            Type::Symbol(_) => String::from_str("symbol"),
            Type::List(_) => String::from_str("list"),
            Type::Null => String::from_str("null"),
            Type::Function(_) => String::from_str("function"),
        }
    }

    /// The list reading: the contents of an expression or list, and a
    /// one-element list around anything else.
    pub fn get_list(&self) -> (r: Vec<Expr>)
        ensures
            exprs_view(r@) == spec_get_list(self@),
    {
        match self {
            Type::Expr(e) => clone_exprs(e),
            Type::List(l) => clone_exprs(l),
            _ => {
                let c = self.clone();
                let ghost cv = c@;
                let mut v: Vec<Expr> = Vec::new();
                v.push(Expr { expr: c, annotate: None });
                proof {
                    assert(v@.len() == 1);
                    assert(expr_view(v@[0]) == (ExprV { expr: cv, annotate: None }));
                    assert(v@.skip(1) =~= Seq::<Expr>::empty());
                    assert(exprs_view(v@.skip(1)) == Seq::<ExprV>::empty());
                    assert(exprs_view(v@) =~= seq![ExprV { expr: self@, annotate: None }]);
                    assert(exprs_view(v@) =~= spec_get_list(self@));
                }
                v
            },
        }
    }
}

/// Whether a string equals a literal.
pub fn string_eq_str(a: &String, b: &str) -> (r: bool)
    ensures
        r == (a@ == b@),
{
    let bo: String = b.to_owned();
    *a == bo
}

/// Which annotation class a name denotes, apart from the wildcard `any`.
pub open spec fn spec_class_of_name(s: Seq<char>) -> Option<Class> {
    if s == "function"@ {
        Some(Class::Function)
    } else if s == "list"@ {
        Some(Class::List)
    } else if s == "symbol"@ {
        Some(Class::Symbol)
    } else if s == "number"@ {
        Some(Class::Number)
    } else if s == "string"@ {
        Some(Class::String)
    } else if s == "bool"@ {
        Some(Class::Bool)
    } else if s == "null"@ {
        Some(Class::Null)
    } else {
        None
    }
}

impl Class {
    /// Reads an annotation name; `any` reads as absence, and an unknown name
    /// is a syntax error naming the offender.
    pub fn from(source: String) -> (r: Result<Option<Class>, GradiaError>)
        ensures
            match r {
                Ok(Some(c)) => spec_class_of_name(source@) == Some(c),
                Ok(None) => spec_class_of_name(source@) is None && source@ == "any"@,
                Err(e) => spec_class_of_name(source@) is None && source@ != "any"@ && e@
                    == GradiaErrorV::Syntax(
                    "unknown type annotation `"@.add(source@).push('`'),
                ),
            },
    {
        if string_eq_str(&source, "function") {
            Ok(Some(Class::Function))
        } else if string_eq_str(&source, "list") {
            Ok(Some(Class::List))
        } else if string_eq_str(&source, "symbol") {
            Ok(Some(Class::Symbol))
        } else if string_eq_str(&source, "number") {
            Ok(Some(Class::Number))
        } else if string_eq_str(&source, "string") {
            Ok(Some(Class::String))
        } else if string_eq_str(&source, "bool") {
            Ok(Some(Class::Bool))
        } else if string_eq_str(&source, "null") {
            Ok(Some(Class::Null))
        } else if string_eq_str(&source, "any") {
            Ok(None)
        } else {
            let mut msg: Vec<char> = Vec::new();
            push_str_chars("unknown type annotation `", &mut msg);
            push_str_chars(source.as_str(), &mut msg);
            msg.push('`');
            proof {
                assert(msg@ =~= "unknown type annotation `"@.add(source@).push('`'));
            }
            Err(GradiaError::Syntax(string_from_chars(&msg)))
        }
    }

    /// Coerces a value into this class.
    pub fn parse(&self, value: Type) -> (r: Type)
        ensures
            match *self {
                Class::Symbol => r@ == TypeV::Symbol(spec_get_string(value@)),
                Class::Bool => r@ == TypeV::Bool(spec_get_bool(value@)),
                Class::Number => r@ matches TypeV::Number(f) && (f.num(), f.den())
                    == spec_get_number(value@),
                Class::String => r@ == TypeV::String(spec_get_string(value@)),
                Class::List => r@ == TypeV::List(spec_get_list(value@)),
                Class::Null => r@ == TypeV::Null,
                Class::Function => r@ == TypeV::Function(crate::types::FunctionV::BuiltIn(
                    Builtin::Identity,
                )),
            },
    {
        match self {
            Class::Symbol => Type::Symbol(value.get_string()),
            Class::Bool => Type::Bool(value.get_bool()),
            Class::Number => Type::Number(value.get_number()),
            Class::String => Type::String(value.get_string()),
            Class::List => Type::List(value.get_list()),
            Class::Null => Type::Null,
            Class::Function => Type::Function(Function::BuiltIn(Builtin::Identity)),
        }
    }

    /// The class's name, as it is written in an annotation.
    pub fn get_type(&self) -> (r: String)
        ensures
            r@ == class_name(*self),
    {
        let mut out: Vec<char> = Vec::new();
        push_class_name(*self, &mut out);
        string_from_chars(&out)
    }
}

} // verus!
