//! The pure built-in procedures: arithmetic and comparison folds, boolean
//! logic, coercion, and the list and string primitives that do not evaluate
//! code. Each has an exact contract over the views of its arguments.

use vstd::prelude::*;
use crate::fraction::Fraction;
use crate::types::{
    Expr, ExprV, Function, FunctionV, GradiaError, GradiaErrorV, Type, TypeV, expr_view,
    exprs_view, lemma_exprs_view_props, lemma_types_view_props, types_view,
};
use crate::coerce::{
    spec_get_bool, spec_get_list, spec_get_number, spec_get_string, spec_type_name,
};
use crate::print::{print_type, push_str_chars};
use crate::text::string_from_chars;

verus! {

/// The numeric reading of a value, as a fraction.
pub open spec fn as_frac(t: TypeV) -> Fraction {
    Fraction::from_pair(spec_get_number(t))
}

/// Reads a value as a fraction.
pub fn frac_of(t: &Type) -> (r: Fraction)
    ensures
        r == as_frac(t@),
{
    let f = t.get_number();
    proof {
        Fraction::lemma_parts_in_range(f);
        Fraction::lemma_from_pair((f.num(), f.den()));
        Fraction::lemma_parts_determine(Fraction::from_pair((f.num(), f.den())), f);
    }
    f
}

/// The four fold operations of exact arithmetic, and the remainder.
pub enum ArithOp {
    Plus,
    Minus,
    Times,
    Over,
    Modulo,
}

/// One step of an arithmetic fold.
pub open spec fn apply_arith(op: ArithOp, a: Fraction, b: Fraction) -> Fraction {
    match op {
        ArithOp::Plus => Fraction::from_pair(Fraction::spec_add(a, b)),
        ArithOp::Minus => Fraction::from_pair(Fraction::spec_sub(a, b)),
        ArithOp::Times => Fraction::from_pair(Fraction::spec_mul(a, b)),
        ArithOp::Over => Fraction::from_pair(Fraction::spec_div(a, b)),
        ArithOp::Modulo => Fraction::from_pair(Fraction::spec_rem(a, b)),
    }
}

/// Folding an arithmetic operation from the left over numeric readings.
pub open spec fn fold_arith(op: ArithOp, acc: Fraction, ps: Seq<TypeV>) -> Fraction
    decreases ps.len(),
{
    if ps.len() == 0 {
        acc
    } else {
        fold_arith(op, apply_arith(op, acc, as_frac(ps[0])), ps.skip(1))
    }
}

fn arith_step(op: &ArithOp, a: Fraction, b: Fraction) -> (r: Fraction)
    ensures
        r == apply_arith(*op, a, b),
{
    let r = match op {
        ArithOp::Plus => a.add(b),
        ArithOp::Minus => a.sub(b),
        ArithOp::Times => a.mul(b),
        ArithOp::Over => a.div(b),
        ArithOp::Modulo => a.rem(b),
    };
    proof {
        Fraction::lemma_parts_in_range(r);
        Fraction::lemma_from_pair((r.num(), r.den()));
        Fraction::lemma_parts_determine(Fraction::from_pair((r.num(), r.den())), r);
    }
    r
}

/// Folds an arithmetic operation over the arguments from `start` on.
fn fold_arith_exec(op: &ArithOp, acc0: Fraction, params: &Vec<Type>, start: usize) -> (r: Fraction)
    requires
        start <= params@.len(),
    ensures
        r == fold_arith(*op, acc0, types_view(params@).skip(start as int)),
{
    proof {
        lemma_types_view_props(params@);
    }
    let ghost tv = types_view(params@);
    let n = params.len();
    let mut acc = acc0;
    let mut i: usize = start;
    while i < n
        invariant
            start <= i <= n,
            n == params@.len(),
            tv == types_view(params@),
            tv.len() == n,
            forall|j: int| 0 <= j < n ==> tv[j] == crate::types::type_view(#[trigger] params@[j]),
            fold_arith(*op, acc, tv.skip(i as int)) == fold_arith(*op, acc0, tv.skip(start as int)),
        decreases n - i,
    {
        proof {
            assert(tv.skip(i as int)[0] == tv[i as int]);
            assert(tv.skip(i as int).skip(1) =~= tv.skip(i as int + 1));
        }
        let x = frac_of(&params[i]);
        acc = arith_step(op, acc, x);
        i = i + 1;
    }
    proof {
        assert(tv.skip(n as int).len() == 0);
    }
    acc
}

/// The arithmetic folds `+ - * / %`: at least one argument, fold from the
/// left; `-` with a single argument negates.
pub fn builtin_arith(op: ArithOp, params: &Vec<Type>) -> (r: Result<Type, GradiaError>)
    ensures
        ({
            let tv = types_view(params@);
            match r {
                Ok(v) => tv.len() >= 1 && (if tv.len() == 1 && op is Minus {
                    v@ == TypeV::Number(
                        Fraction::from_pair(
                            Fraction::spec_sub(Fraction::from_pair((0, 1)), as_frac(tv[0])),
                        ),
                    )
                } else {
                    v@ == TypeV::Number(fold_arith(op, as_frac(tv[0]), tv.skip(1)))
                }),
                Err(e) => tv.len() == 0 && e@ == GradiaErrorV::Function(0, 2),
            }
        }),
{
    proof {
        lemma_types_view_props(params@);
    }
    if params.len() == 0 {
        return Err(GradiaError::Function(0, 2));
    }
    let first = frac_of(&params[0]);
    if params.len() == 1 {
        if let ArithOp::Minus = op {
            let z = Fraction::zero();
            proof {
                Fraction::lemma_from_pair((0int, 1int));
                Fraction::lemma_parts_determine(Fraction::from_pair((0int, 1int)), z);
            }
            let neg = arith_step(&ArithOp::Minus, z, first);
            return Ok(Type::Number(neg));
        }
    }
    let result = fold_arith_exec(&op, first, params, 1);
    Ok(Type::Number(result))
}

/// Folding an arithmetic built-in over a value and its identity element
/// returns the value unchanged: adding or subtracting zero, multiplying or
/// dividing by one.
pub proof fn lemma_fold_identity_builtin(x: Fraction, zero: Fraction, one: Fraction)
    requires
        Fraction::canonical(x.num(), x.den()),
        zero.num() == 0 && zero.den() == 1,
        one.num() == 1 && one.den() == 1,
    ensures
        fold_arith(ArithOp::Plus, x, seq![TypeV::Number(zero)]) == x,
        fold_arith(ArithOp::Minus, x, seq![TypeV::Number(zero)]) == x,
        fold_arith(ArithOp::Times, x, seq![TypeV::Number(one)]) == x,
        fold_arith(ArithOp::Over, x, seq![TypeV::Number(one)]) == x,
{
    Fraction::lemma_parts_in_range(x);
    Fraction::lemma_parts_in_range(zero);
    Fraction::lemma_parts_in_range(one);
    Fraction::lemma_from_pair((zero.num(), zero.den()));
    Fraction::lemma_parts_determine(Fraction::from_pair((zero.num(), zero.den())), zero);
    Fraction::lemma_from_pair((one.num(), one.den()));
    Fraction::lemma_parts_determine(Fraction::from_pair((one.num(), one.den())), one);
    crate::fraction::lemma_fold_identity(x, zero, one);
    Fraction::lemma_from_pair((x.num(), x.den()));
    Fraction::lemma_parts_determine(Fraction::from_pair((x.num(), x.den())), x);
    let ps0 = seq![TypeV::Number(zero)];
    let ps1 = seq![TypeV::Number(one)];
    assert(ps0.skip(1) =~= Seq::<TypeV>::empty());
    assert(ps1.skip(1) =~= Seq::<TypeV>::empty());
    assert(ps0[0] == TypeV::Number(zero));
    assert(ps1[0] == TypeV::Number(one));
    assert(as_frac(ps0[0]) == zero);
    assert(as_frac(ps1[0]) == one);
    assert(apply_arith(ArithOp::Plus, x, zero) == x);
    assert(apply_arith(ArithOp::Minus, x, zero) == x);
    assert(apply_arith(ArithOp::Times, x, one) == x);
    assert(apply_arith(ArithOp::Over, x, one) == x);
    assert(fold_arith(ArithOp::Plus, apply_arith(ArithOp::Plus, x, as_frac(ps0[0])), ps0.skip(1))
        == x);
    assert(fold_arith(ArithOp::Minus, apply_arith(ArithOp::Minus, x, as_frac(ps0[0])), ps0.skip(1))
        == x);
    assert(fold_arith(ArithOp::Times, apply_arith(ArithOp::Times, x, as_frac(ps1[0])), ps1.skip(1))
        == x);
    assert(fold_arith(ArithOp::Over, apply_arith(ArithOp::Over, x, as_frac(ps1[0])), ps1.skip(1))
        == x);
}

/// Folding exponentiation; nothing when some exponent is not a whole number.
pub open spec fn fold_pow(acc: Fraction, ps: Seq<TypeV>) -> Option<Fraction>
    decreases ps.len(),
{
    if ps.len() == 0 {
        Some(acc)
    } else {
        let e = as_frac(ps[0]);
        if e.den() != 1 {
            None
        } else {
            fold_pow(Fraction::from_pair(Fraction::spec_pow(acc, e.num())), ps.skip(1))
        }
    }
}

/// The `^` built-in: folds exponentiation from the left. Every exponent must
/// be a whole number: a rational base raised to a fractional exponent is
/// irrational in general, so no exact result exists to return.
pub fn builtin_pow(params: &Vec<Type>) -> (r: Result<Type, GradiaError>)
    ensures
        ({
            let tv = types_view(params@);
            match r {
                Ok(v) => tv.len() >= 1 && (fold_pow(as_frac(tv[0]), tv.skip(1)) matches Some(f)
                    && v@ == TypeV::Number(f)),
                Err(e) => (tv.len() == 0 && e@ == GradiaErrorV::Function(0, 2)) || (tv.len() >= 1
                    && fold_pow(as_frac(tv[0]), tv.skip(1)) is None && e@ == GradiaErrorV::Runtime(
                    "the exponent must be a whole number"@,
                )),
            }
        }),
{
    proof {
        lemma_types_view_props(params@);
    }
    let ghost tv = types_view(params@);
    if params.len() == 0 {
        return Err(GradiaError::Function(0, 2));
    }
    let n = params.len();
    let mut acc = frac_of(&params[0]);
    let mut i: usize = 1;
    while i < n
        invariant
            1 <= i <= n,
            n == params@.len(),
            tv == types_view(params@),
            tv.len() == n,
            forall|j: int| 0 <= j < n ==> tv[j] == crate::types::type_view(#[trigger] params@[j]),
            fold_pow(acc, tv.skip(i as int)) == fold_pow(as_frac(tv[0]), tv.skip(1)),
        decreases n - i,
    {
        proof {
            assert(tv.skip(i as int)[0] == tv[i as int]);
            assert(tv.skip(i as int).skip(1) =~= tv.skip(i as int + 1));
        }
        let e = frac_of(&params[i]);
        if !e.is_integer() {
            let mut msg: Vec<char> = Vec::new();
            push_str_chars("the exponent must be a whole number", &mut msg);
            return Err(GradiaError::Runtime(string_from_chars(&msg)));
        }
        let p = acc.pow_int(e.numerator());
        proof {
            Fraction::lemma_parts_in_range(p);
            Fraction::lemma_from_pair((p.num(), p.den()));
            Fraction::lemma_parts_determine(Fraction::from_pair((p.num(), p.den())), p);
        }
        acc = p;
        i = i + 1;
    }
    proof {
        assert(tv.skip(n as int).len() == 0);
    }
    Ok(Type::Number(acc))
}

/// The four ordering comparisons. Both `Less` and `LessEq` test strict
/// less-than, as the language defines them.
pub enum CmpOp {
    Greater,
    GreaterEq,
    Less,
    LessEq,
}

/// One adjacent comparison.
pub open spec fn cmp_pair(op: CmpOp, a: Fraction, b: Fraction) -> bool {
    match op {
        CmpOp::Greater => Fraction::spec_lt(b, a),
        CmpOp::GreaterEq => !Fraction::spec_lt(a, b),
        CmpOp::Less => Fraction::spec_lt(a, b),
        CmpOp::LessEq => Fraction::spec_lt(a, b),
    }
}

/// Whether every adjacent pair of numeric readings satisfies the comparison.
pub open spec fn pairwise_cmp(op: CmpOp, ps: Seq<TypeV>) -> bool {
    forall|i: int|
        0 <= i < ps.len() - 1 ==> cmp_pair(op, as_frac(#[trigger] ps[i]), as_frac(ps[i + 1]))
}

/// Both the strict and the non-strict less-than built-ins test strict
/// less-than on each adjacent pair, exactly alike.
pub proof fn lemma_le_is_lt(ps: Seq<TypeV>)
    ensures
        pairwise_cmp(CmpOp::LessEq, ps) == pairwise_cmp(CmpOp::Less, ps),
{
    assert forall|i: int|
        0 <= i < ps.len() - 1 implies cmp_pair(CmpOp::LessEq, as_frac(#[trigger] ps[i]), as_frac(ps[i + 1]))
        == cmp_pair(CmpOp::Less, as_frac(ps[i]), as_frac(ps[i + 1])) by {}
}

/// The comparison built-ins `> >= < <=`: at least two arguments, compared
/// pairwise on their numeric readings.
pub fn builtin_cmp(op: CmpOp, params: &Vec<Type>) -> (r: Result<Type, GradiaError>)
    ensures
        ({
            let tv = types_view(params@);
            match r {
                Ok(v) => tv.len() >= 2 && v@ == TypeV::Bool(pairwise_cmp(op, tv)),
                Err(e) => tv.len() < 2 && e@ == GradiaErrorV::Function(tv.len() as int, 2),
            }
        }),
{
    proof {
        lemma_types_view_props(params@);
    }
    let ghost tv = types_view(params@);
    let n = params.len();
    if n < 2 {
        return Err(GradiaError::Function(n, 2));
    }
    let mut i: usize = 0;
    while i < n - 1
        invariant
            0 <= i <= n - 1,
            n == params@.len(),
            n >= 2,
            tv == types_view(params@),
            tv.len() == n,
            forall|j: int| 0 <= j < n ==> tv[j] == crate::types::type_view(#[trigger] params@[j]),
            forall|j: int| 0 <= j < i ==> cmp_pair(op, as_frac(#[trigger] tv[j]), as_frac(tv[j + 1])),
        decreases n - i,
    {
        let a = frac_of(&params[i]);
        let b = frac_of(&params[i + 1]);
        let ok = match op {
            CmpOp::Greater => b.lt(a),
            CmpOp::GreaterEq => !a.lt(b),
            CmpOp::Less => a.lt(b),
            CmpOp::LessEq => a.lt(b),
        };
        if !ok {
            proof {
                assert(!cmp_pair(op, as_frac(tv[i as int]), as_frac(tv[i as int + 1])));
                assert(!pairwise_cmp(op, tv));
            }
            return Ok(Type::Bool(false));
        }
        i = i + 1;
    }
    Ok(Type::Bool(true))
}

/// Whether every adjacent pair prints alike.
pub open spec fn pairwise_print_eq(ps: Seq<TypeV>) -> bool {
    forall|i: int| 0 <= i < ps.len() - 1 ==> print_type(#[trigger] ps[i]) == print_type(ps[i + 1])
}

/// Whether every adjacent pair prints differently.
pub open spec fn pairwise_print_ne(ps: Seq<TypeV>) -> bool {
    forall|i: int| 0 <= i < ps.len() - 1 ==> print_type(#[trigger] ps[i]) != print_type(ps[i + 1])
}

/// A value always equals itself under `=`, and never differs from itself
/// under `!=`: the printable form is a function of the value.
pub proof fn lemma_self_equality(x: TypeV)
    ensures
        pairwise_print_eq(seq![x, x]),
        !pairwise_print_ne(seq![x, x]),
{
    assert(seq![x, x][0] == x && seq![x, x][1] == x);
    assert(print_type(seq![x, x][0]) == print_type(seq![x, x][1]));
}

/// The `=` and `!=` built-ins: at least two arguments, compared pairwise on
/// their canonical printable forms.
pub fn builtin_equality(ne: bool, params: &Vec<Type>) -> (r: Result<Type, GradiaError>)
    ensures
        ({
            let tv = types_view(params@);
            match r {
                Ok(v) => tv.len() >= 2 && v@ == TypeV::Bool(
                    if ne {
                        pairwise_print_ne(tv)
                    } else {
                        pairwise_print_eq(tv)
                    },
                ),
                Err(e) => tv.len() < 2 && e@ == GradiaErrorV::Function(tv.len() as int, 2),
            }
        }),
{
    proof {
        lemma_types_view_props(params@);
    }
    let ghost tv = types_view(params@);
    let n = params.len();
    if n < 2 {
        return Err(GradiaError::Function(n, 2));
    }
    let mut i: usize = 0;
    while i < n - 1
        invariant
            0 <= i <= n - 1,
            n == params@.len(),
            n >= 2,
            tv == types_view(params@),
            tv.len() == n,
            forall|j: int| 0 <= j < n ==> tv[j] == crate::types::type_view(#[trigger] params@[j]),
            !ne ==> forall|j: int|
                0 <= j < i ==> print_type(#[trigger] tv[j]) == print_type(tv[j + 1]),
            ne ==> forall|j: int|
                0 <= j < i ==> print_type(#[trigger] tv[j]) != print_type(tv[j + 1]),
        decreases n - i,
    {
        let a = params[i].print_form();
        let b = params[i + 1].print_form();
        let same = a == b;
        if (!ne && !same) || (ne && same) {
            return Ok(Type::Bool(false));
        }
        i = i + 1;
    }
    Ok(Type::Bool(true))
}

/// Whether all readings are true.
pub open spec fn all_true(ps: Seq<TypeV>) -> bool {
    forall|i: int| 0 <= i < ps.len() ==> spec_get_bool(#[trigger] ps[i])
}

/// Whether some reading is true.
pub open spec fn any_true(ps: Seq<TypeV>) -> bool {
    exists|i: int| 0 <= i < ps.len() && spec_get_bool(#[trigger] ps[i])
}

/// The `&` and `|` built-ins: at least two arguments; all, or any, of the
/// boolean readings.
pub fn builtin_logic(any: bool, params: &Vec<Type>) -> (r: Result<Type, GradiaError>)
    ensures
        ({
            let tv = types_view(params@);
            match r {
                Ok(v) => tv.len() >= 2 && v@ == TypeV::Bool(
                    if any {
                        any_true(tv)
                    } else {
                        all_true(tv)
                    },
                ),
                Err(e) => tv.len() < 2 && e@ == GradiaErrorV::Function(tv.len() as int, 2),
            }
        }),
{
    proof {
        lemma_types_view_props(params@);
    }
    let ghost tv = types_view(params@);
    let n = params.len();
    if n < 2 {
        return Err(GradiaError::Function(n, 2));
    }
    let mut i: usize = 0;
    while i < n
        invariant
            0 <= i <= n,
            n == params@.len(),
            n >= 2,
            tv == types_view(params@),
            tv.len() == n,
            forall|j: int| 0 <= j < n ==> tv[j] == crate::types::type_view(#[trigger] params@[j]),
            !any ==> forall|j: int| 0 <= j < i ==> spec_get_bool(#[trigger] tv[j]),
            any ==> forall|j: int| 0 <= j < i ==> !spec_get_bool(#[trigger] tv[j]),
        decreases n - i,
    {
        let b = params[i].get_bool();
        if any && b {
            proof {
                assert(spec_get_bool(tv[i as int]));
                assert(any_true(tv));
            }
            return Ok(Type::Bool(true));
        }
        if !any && !b {
            proof {
                assert(!spec_get_bool(tv[i as int]));
                assert(!all_true(tv));
            }
            return Ok(Type::Bool(false));
        }
        i = i + 1;
    }
    if any {
        proof {
            assert(!any_true(tv));
        }
        Ok(Type::Bool(false))
    } else {
        Ok(Type::Bool(true))
    }
}

/// The `!` built-in: exactly one argument, negated boolean reading.
pub fn builtin_not(params: &Vec<Type>) -> (r: Result<Type, GradiaError>)
    ensures
        ({
            let tv = types_view(params@);
            match r {
                Ok(v) => tv.len() == 1 && v@ == TypeV::Bool(!spec_get_bool(tv[0])),
                Err(e) => tv.len() != 1 && e@ == GradiaErrorV::Function(tv.len() as int, 1),
            }
        }),
{
    proof {
        lemma_types_view_props(params@);
    }
    if params.len() == 1 {
        Ok(Type::Bool(!params[0].get_bool()))
    } else {
        Err(GradiaError::Function(params.len(), 1))
    }
}

/// The concatenation of all string readings.
pub open spec fn concat_strs(ps: Seq<TypeV>) -> Seq<char>
    decreases ps.len(),
{
    if ps.len() == 0 {
        Seq::empty()
    } else {
        spec_get_string(ps[0]).add(concat_strs(ps.skip(1)))
    }
}

/// The `concat` built-in: the string readings of all arguments, joined.
pub fn builtin_concat(params: &Vec<Type>) -> (r: Result<Type, GradiaError>)
    ensures
        ({
            let tv = types_view(params@);
            r matches Ok(v) && v@ == TypeV::String(concat_strs(tv))
        }),
{
    proof {
        lemma_types_view_props(params@);
    }
    let ghost tv = types_view(params@);
    let n = params.len();
    let mut out: Vec<char> = Vec::new();
    let mut i: usize = 0;
    proof {
        assert(tv.skip(0) =~= tv);
        assert(out@.add(concat_strs(tv)) =~= concat_strs(tv));
    }
    while i < n
        invariant
            0 <= i <= n,
            n == params@.len(),
            tv == types_view(params@),
            tv.len() == n,
            forall|j: int| 0 <= j < n ==> tv[j] == crate::types::type_view(#[trigger] params@[j]),
            concat_strs(tv) == out@.add(concat_strs(tv.skip(i as int))),
        decreases n - i,
    {
        proof {
            assert(tv.skip(i as int)[0] == tv[i as int]);
            assert(tv.skip(i as int).skip(1) =~= tv.skip(i as int + 1));
        }
        let s = params[i].get_string();
        push_str_chars(s.as_str(), &mut out);
        proof {
            assert(concat_strs(tv) =~= out@.add(concat_strs(tv.skip(i as int + 1))));
        }
        i = i + 1;
    }
    proof {
        assert(tv.skip(n as int).len() == 0);
        assert(concat_strs(tv) =~= out@);
    }
    Ok(Type::String(string_from_chars(&out)))
}

/// The `type` built-in: exactly one argument; its type tag as a string.
pub fn builtin_type_of(params: &Vec<Type>) -> (r: Result<Type, GradiaError>)
    ensures
        ({
            let tv = types_view(params@);
            match r {
                Ok(v) => tv.len() == 1 && v@ == TypeV::String(spec_type_name(tv[0])),
                Err(e) => tv.len() != 1 && e@ == GradiaErrorV::Function(tv.len() as int, 1),
            }
        }),
{
    proof {
        lemma_types_view_props(params@);
    }
    if params.len() == 1 {
        Ok(Type::String(params[0].get_type()))
    } else {
        Err(GradiaError::Function(params.len(), 1))
    }
}

/// The `car` built-in: the first element of the list reading, unannotated;
/// null when the list is empty.
pub fn builtin_car(params: &Vec<Type>) -> (r: Result<Type, GradiaError>)
    ensures
        ({
            let tv = types_view(params@);
            match r {
                Ok(v) => tv.len() == 1 && v@ == (if spec_get_list(tv[0]).len() == 0 {
                    TypeV::Null
                } else {
                    spec_get_list(tv[0])[0].expr
                }),
                Err(e) => tv.len() != 1 && e@ == GradiaErrorV::Function(tv.len() as int, 1),
            }
        }),
{
    proof {
        lemma_types_view_props(params@);
    }
    if params.len() != 1 {
        return Err(GradiaError::Function(params.len(), 1));
    }
    let mut l = params[0].get_list();
    proof {
        lemma_exprs_view_props(l@);
    }
    if l.len() == 0 {
        Ok(Type::Null)
    } else {
        let e = l.remove(0);
        Ok(e.expr)
    }
}

/// The `cdr` built-in: everything after the first element, as a list.
pub fn builtin_cdr(params: &Vec<Type>) -> (r: Result<Type, GradiaError>)
    ensures
        ({
            let tv = types_view(params@);
            match r {
                Ok(v) => tv.len() == 1 && v@ == TypeV::List(
                    if spec_get_list(tv[0]).len() == 0 {
                        Seq::empty()
                    } else {
                        spec_get_list(tv[0]).skip(1)
                    },
                ),
                Err(e) => tv.len() != 1 && e@ == GradiaErrorV::Function(tv.len() as int, 1),
            }
        }),
{
    proof {
        lemma_types_view_props(params@);
    }
    if params.len() != 1 {
        return Err(GradiaError::Function(params.len(), 1));
    }
    let mut l = params[0].get_list();
    let ghost l0 = l@;
    proof {
        lemma_exprs_view_props(l0);
    }
    if l.len() == 0 {
        proof {
            assert(exprs_view(l@) =~= Seq::<ExprV>::empty());
        }
        return Ok(Type::List(l));
    }
    l.remove(0);
    proof {
        lemma_exprs_view_props(l@);
        assert(l@ =~= l0.skip(1));
        assert forall|j: int|
            0 <= j < exprs_view(l@).len() implies exprs_view(l@)[j] == exprs_view(l0).skip(1)[j] by {
            assert(l@[j] == l0[j + 1]);
        }
        assert(exprs_view(l@) =~= exprs_view(l0).skip(1));
    }
    Ok(Type::List(l))
}

/// The `reverse` built-in: the list reading, reversed.
pub fn builtin_reverse(params: &Vec<Type>) -> (r: Result<Type, GradiaError>)
    ensures
        ({
            let tv = types_view(params@);
            match r {
                Ok(v) => tv.len() == 1 && v@ == TypeV::List(spec_get_list(tv[0]).reverse()),
                Err(e) => tv.len() != 1 && e@ == GradiaErrorV::Function(tv.len() as int, 1),
            }
        }),
{
    proof {
        lemma_types_view_props(params@);
    }
    if params.len() != 1 {
        return Err(GradiaError::Function(params.len(), 1));
    }
    let l = params[0].get_list();
    let ghost lv = exprs_view(l@);
    proof {
        lemma_exprs_view_props(l@);
    }
    let n = l.len();
    let mut out: Vec<Expr> = Vec::new();
    let mut i: usize = n;
    while i > 0
        invariant
            0 <= i <= n,
            n == l@.len(),
            lv == exprs_view(l@),
            lv.len() == n,
            forall|j: int| 0 <= j < n ==> lv[j] == expr_view(#[trigger] l@[j]),
            out@.len() == n - i,
            forall|j: int| 0 <= j < n - i ==> expr_view(#[trigger] out@[j]) == lv[n - 1 - j],
        decreases i,
    {
        i = i - 1;
        let c = (&l[i]).clone();
        out.push(c);
    }
    proof {
        lemma_exprs_view_props(out@);
        assert forall|j: int|
            0 <= j < exprs_view(out@).len() implies exprs_view(out@)[j] == lv.reverse()[j] by {
            assert(expr_view(out@[j]) == lv[n - 1 - j]);
        }
        assert(exprs_view(out@) =~= lv.reverse());
    }
    Ok(Type::List(out))
}

/// A length clamped into the numerator type.
pub open spec fn len_as_int(n: nat) -> int {
    if n > i64::MAX {
        i64::MAX as int
    } else {
        n as int
    }
}

/// The `len` built-in: the length of the list reading, as a number.
pub fn builtin_len(params: &Vec<Type>) -> (r: Result<Type, GradiaError>)
    ensures
        ({
            let tv = types_view(params@);
            match r {
                Ok(v) => tv.len() == 1 && (v@ matches TypeV::Number(f) && f.num()
                    == len_as_int(spec_get_list(tv[0]).len()) && f.den() == 1),
                Err(e) => tv.len() != 1 && e@ == GradiaErrorV::Function(tv.len() as int, 1),
            }
        }),
{
    proof {
        lemma_types_view_props(params@);
    }
    if params.len() != 1 {
        return Err(GradiaError::Function(params.len(), 1));
    }
    let l = params[0].get_list();
    proof {
        lemma_exprs_view_props(l@);
    }
    let n = l.len();
    proof {
        assert(types_view(params@)[0] == crate::types::type_view(params@[0]));
        assert(spec_get_list(types_view(params@)[0]).len() == n);
    }
    let n64 = n as u64;
    let v: i64 = if n64 > i64::MAX as u64 {
        i64::MAX
    } else {
        n64 as i64
    };
    proof {
        assert(v as int == len_as_int(n as nat));
    }
    Ok(Type::Number(Fraction::from_i64(v)))
}

/// A text repeated a number of times.
pub open spec fn repeat_str(s: Seq<char>, k: nat) -> Seq<char>
    decreases k,
{
    if k == 0 {
        Seq::empty()
    } else {
        s.add(repeat_str(s, (k - 1) as nat))
    }
}

/// The truncated, non-negative whole-number reading of a value, for counts.
pub open spec fn count_of(t: TypeV) -> nat {
    let f = as_frac(t);
    let q = Fraction::trunc_div(f.num(), f.den());
    if q < 0 {
        0
    } else {
        q as nat
    }
}

/// The `repeat` built-in: the first argument's string reading, repeated the
/// second's whole-number reading of times.
pub fn builtin_repeat(params: &Vec<Type>) -> (r: Result<Type, GradiaError>)
    ensures
        ({
            let tv = types_view(params@);
            match r {
                Ok(v) => tv.len() == 2 && v@ == TypeV::String(
                    repeat_str(spec_get_string(tv[0]), count_of(tv[1])),
                ),
                Err(e) => tv.len() != 2 && e@ == GradiaErrorV::Function(tv.len() as int, 2),
            }
        }),
{
    proof {
        lemma_types_view_props(params@);
    }
    if params.len() != 2 {
        return Err(GradiaError::Function(params.len(), 2));
    }
    let s = params[0].get_string();
    let f = frac_of(&params[1]);
    let t = f.trunc();
    let k: u64 = if t < 0 {
        0
    } else {
        t as u64
    };
    let mut out: Vec<char> = Vec::new();
    let mut i: u64 = 0;
    proof {
        lemma_repeat_str_zero(s@);
    }
    while i < k
        invariant
            0 <= i <= k,
            s@ == spec_get_string(types_view(params@)[0]),
            k as nat == count_of(types_view(params@)[1]),
            out@ == repeat_str(s@, i as nat),
        decreases k - i,
    {
        push_str_chars(s.as_str(), &mut out);
        i = i + 1;
        proof {
            lemma_repeat_str_snoc(s@, i as nat);
        }
    }
    Ok(Type::String(string_from_chars(&out)))
}

proof fn lemma_repeat_str_zero(s: Seq<char>)
    ensures
        repeat_str(s, 0) == Seq::<char>::empty(),
{
}

/// Repeating once more appends one more copy.
proof fn lemma_repeat_str_snoc(s: Seq<char>, k: nat)
    requires
        k >= 1,
    ensures
        repeat_str(s, k) == repeat_str(s, (k - 1) as nat).add(s),
    decreases k,
{
    if k == 1 {
        assert(repeat_str(s, 0) == Seq::<char>::empty());
        assert(s.add(Seq::<char>::empty()) =~= Seq::<char>::empty().add(s));
    } else {
        lemma_repeat_str_snoc(s, (k - 1) as nat);
        assert(repeat_str(s, k) == s.add(repeat_str(s, (k - 1) as nat)));
        assert(s.add(repeat_str(s, (k - 2) as nat).add(s)) =~= s.add(
            repeat_str(s, (k - 2) as nat),
        ).add(s));
    }
}

/// The string readings of a list's elements, joined by a separator.
pub open spec fn join_strs(items: Seq<ExprV>, sep: Seq<char>) -> Seq<char>
    decreases items.len(),
{
    if items.len() == 0 {
        Seq::empty()
    } else if items.len() == 1 {
        spec_get_string(items[0].expr)
    } else {
        spec_get_string(items[0].expr).add(sep).add(join_strs(items.skip(1), sep))
    }
}

/// The `join` built-in: the elements' string readings, separated by the
/// second argument's string reading.
pub fn builtin_join(params: &Vec<Type>) -> (r: Result<Type, GradiaError>)
    ensures
        ({
            let tv = types_view(params@);
            match r {
                Ok(v) => tv.len() == 2 && v@ == TypeV::String(
                    join_strs(spec_get_list(tv[0]), spec_get_string(tv[1])),
                ),
                Err(e) => tv.len() != 2 && e@ == GradiaErrorV::Function(tv.len() as int, 2),
            }
        }),
{
    proof {
        lemma_types_view_props(params@);
    }
    if params.len() != 2 {
        return Err(GradiaError::Function(params.len(), 2));
    }
    let l = params[0].get_list();
    let sep = params[1].get_string();
    let ghost lv = exprs_view(l@);
    proof {
        lemma_exprs_view_props(l@);
    }
    let n = l.len();
    let mut out: Vec<char> = Vec::new();
    let mut i: usize = 0;
    proof {
        assert(lv.skip(0) =~= lv);
        assert(out@.add(join_strs(lv, sep@)) =~= join_strs(lv, sep@));
    }
    while i < n
        invariant
            0 <= i <= n,
            n == l@.len(),
            lv == exprs_view(l@),
            lv.len() == n,
            forall|j: int| 0 <= j < n ==> lv[j] == expr_view(#[trigger] l@[j]),
            sep@ == spec_get_string(types_view(params@)[1]),
            join_strs(lv, sep@) == out@.add(join_strs(lv.skip(i as int), sep@)),
        decreases n - i,
    {
        proof {
            assert(lv.skip(i as int)[0] == lv[i as int]);
            assert(lv.skip(i as int).skip(1) =~= lv.skip(i as int + 1));
        }
        let s = (&l[i].expr).get_string();
        push_str_chars(s.as_str(), &mut out);
        if i + 1 < n {
            push_str_chars(sep.as_str(), &mut out);
        }
        proof {
            assert(join_strs(lv, sep@) =~= out@.add(join_strs(lv.skip(i as int + 1), sep@)));
        }
        i = i + 1;
    }
    proof {
        assert(lv.skip(n as int).len() == 0);
        assert(join_strs(lv, sep@) =~= out@);
    }
    Ok(Type::String(string_from_chars(&out)))
}

/// What splitting a text by a separator yields.
///
/// This names the result of the standard library's `str::split` with a text
/// pattern, which depends on its two arguments alone.
pub uninterp spec fn split_parts(s: Seq<char>, sep: Seq<char>) -> Seq<Seq<char>>;

/// Splits a text by a separator text.
///
/// Relies on `str::split` with a `&str` pattern: the parts are a function of
/// the two texts, and there is always at least one part.
#[verifier::external_body]
fn split_string(s: &str, sep: &str) -> (r: Vec<String>)
    ensures
        r@.len() == split_parts(s@, sep@).len(),
        r@.len() >= 1,
        forall|i: int| 0 <= i < r@.len() ==> (#[trigger] r@[i])@ == split_parts(s@, sep@)[i],
{
    s.split(sep).map(|p| p.to_string()).collect()
}

/// The `split` built-in: the pieces of the first argument's string reading
/// around the second's, as a list of strings.
pub fn builtin_split(params: &Vec<Type>) -> (r: Result<Type, GradiaError>)
    ensures
        ({
            let tv = types_view(params@);
            match r {
                Ok(v) => tv.len() == 2 && ({
                    let parts = split_parts(spec_get_string(tv[0]), spec_get_string(tv[1]));
                    &&& v@ matches TypeV::List(es)
                    &&& es.len() == parts.len()
                    &&& forall|i: int|
                        0 <= i < es.len() ==> #[trigger] es[i] == (ExprV {
                            expr: TypeV::String(parts[i]),
                            annotate: None,
                        })
                }),
                Err(e) => tv.len() != 2 && e@ == GradiaErrorV::Function(tv.len() as int, 2),
            }
        }),
{
    proof {
        lemma_types_view_props(params@);
    }
    if params.len() != 2 {
        return Err(GradiaError::Function(params.len(), 2));
    }
    let s = params[0].get_string();
    let sep = params[1].get_string();
    let parts = split_string(s.as_str(), sep.as_str());
    let ghost pv = split_parts(s@, sep@);
    let n = parts.len();
    let mut out: Vec<Expr> = Vec::new();
    let mut i: usize = 0;
    while i < n
        invariant
            0 <= i <= n,
            n == parts@.len(),
            pv.len() == n,
            forall|j: int| 0 <= j < n ==> (#[trigger] parts@[j])@ == pv[j],
            out@.len() == i,
            forall|j: int|
                0 <= j < i ==> expr_view(#[trigger] out@[j]) == (ExprV {
                    expr: TypeV::String(pv[j]),
                    annotate: None,
                }),
        decreases n - i,
    {
        let piece = parts[i].clone();
        out.push(Expr { expr: Type::String(piece), annotate: None });
        i = i + 1;
    }
    proof {
        lemma_exprs_view_props(out@);
        assert forall|j: int|
            0 <= j < exprs_view(out@).len() implies #[trigger] exprs_view(out@)[j] == (ExprV {
            expr: TypeV::String(pv[j]),
            annotate: None,
        }) by {
            assert(expr_view(out@[j]) == (ExprV { expr: TypeV::String(pv[j]), annotate: None }));
        }
    }
    Ok(Type::List(out))
}

/// The `error` built-in: fails with the first argument's string reading, or
/// a stock message.
pub fn builtin_error(params: &Vec<Type>) -> (r: Result<Type, GradiaError>)
    ensures
        ({
            let tv = types_view(params@);
            match r {
                Ok(_) => false,
                Err(e) => e@ == GradiaErrorV::Runtime(
                    if tv.len() == 0 {
                        "Something went wrong"@
                    } else {
                        spec_get_string(tv[0])
                    },
                ),
            }
        }),
{
    proof {
        lemma_types_view_props(params@);
    }
    if params.len() == 0 {
        let mut msg: Vec<char> = Vec::new();
        push_str_chars("Something went wrong", &mut msg);
        Err(GradiaError::Runtime(string_from_chars(&msg)))
    } else {
        Err(GradiaError::Runtime(params[0].get_string()))
    }
}

/// The `lambda` built-in: a user-defined function of the first argument's
/// list reading as parameters and the remaining arguments as body lines.
pub fn builtin_lambda(params: &Vec<Type>) -> (r: Result<Type, GradiaError>)
    ensures
        ({
            let tv = types_view(params@);
            match r {
                Ok(v) => tv.len() >= 2 && v@ == TypeV::Function(
                    FunctionV::UserDefined(spec_get_list(tv[0]), tv.skip(1)),
                ),
                Err(e) => tv.len() < 2 && e@ == GradiaErrorV::Function(tv.len() as int, 2),
            }
        }),
{
    proof {
        lemma_types_view_props(params@);
    }
    if params.len() < 2 {
        return Err(GradiaError::Function(params.len(), 2));
    }
    let args = params[0].get_list();
    let body = tail_types(params, 1);
    Ok(Type::Function(Function::UserDefined(args, body)))
}

/// The `cast` built-in: coerces the first argument into the class the second
/// names; an unknown class name is a runtime error naming the offender.
pub fn builtin_cast(params: &Vec<Type>) -> (r: Result<Type, GradiaError>)
    ensures
        ({
            let tv = types_view(params@);
            match r {
                Ok(v) => tv.len() == 2 && ({
                    let cls = spec_get_string(tv[1]);
                    if cls == "number"@ {
                        v@ matches TypeV::Number(f) && (f.num(), f.den()) == spec_get_number(tv[0])
                    } else if cls == "string"@ {
                        v@ == TypeV::String(spec_get_string(tv[0]))
                    } else if cls == "bool"@ {
                        v@ == TypeV::Bool(spec_get_bool(tv[0]))
                    } else if cls == "list"@ {
                        v@ == TypeV::List(spec_get_list(tv[0]))
                    } else {
                        false
                    }
                }),
                Err(e) => (tv.len() != 2 && e@ == GradiaErrorV::Function(tv.len() as int, 2)) || (
                tv.len() == 2 && ({
                    let cls = spec_get_string(tv[1]);
                    &&& cls != "number"@
                    &&& cls != "string"@
                    &&& cls != "bool"@
                    &&& cls != "list"@
                    &&& e@ == GradiaErrorV::Runtime("unknown type name `"@.add(cls).push('`'))
                })),
            }
        }),
{
    proof {
        lemma_types_view_props(params@);
    }
    if params.len() != 2 {
        return Err(GradiaError::Function(params.len(), 2));
    }
    let cls = params[1].get_string();
    if crate::coerce::string_eq_str(&cls, "number") {
        Ok(Type::Number(params[0].get_number()))
    } else if crate::coerce::string_eq_str(&cls, "string") {
        Ok(Type::String(params[0].get_string()))
    } else if crate::coerce::string_eq_str(&cls, "bool") {
        Ok(Type::Bool(params[0].get_bool()))
    } else if crate::coerce::string_eq_str(&cls, "list") {
        Ok(Type::List(params[0].get_list()))
    } else {
        let mut msg: Vec<char> = Vec::new();
        push_str_chars("unknown type name `", &mut msg);
        push_str_chars(cls.as_str(), &mut msg);
        msg.push('`');
        proof {
            assert(msg@ =~= "unknown type name `"@.add(cls@).push('`'));
        }
        Err(GradiaError::Runtime(string_from_chars(&msg)))
    }
}

/// The most steps a range is allowed before it is called too long.
pub const RANGE_LIMIT: u64 = 10000000;

/// The numbers from `cur` toward `stop` in increments of `step`, at most
/// `fuel` of them, each as an unannotated number.
pub open spec fn range_seq(cur: Fraction, stop: Fraction, step: Fraction, fuel: nat) -> Seq<ExprV>
    decreases fuel,
{
    if fuel == 0 {
        Seq::empty()
    } else if !Fraction::spec_lt(cur, stop) {
        Seq::empty()
    } else {
        seq![ExprV { expr: TypeV::Number(cur), annotate: None }].add(
            range_seq(
                Fraction::from_pair(Fraction::spec_add(cur, step)),
                stop,
                step,
                (fuel - 1) as nat,
            ),
        )
    }
}

/// Whether the range still has elements left when the step allowance runs
/// out.
pub open spec fn range_stuck(cur: Fraction, stop: Fraction, step: Fraction, fuel: nat) -> bool
    decreases fuel,
{
    if fuel == 0 {
        Fraction::spec_lt(cur, stop)
    } else if !Fraction::spec_lt(cur, stop) {
        false
    } else {
        range_stuck(
            Fraction::from_pair(Fraction::spec_add(cur, step)),
            stop,
            step,
            (fuel - 1) as nat,
        )
    }
}

/// A range whose start is not below its stop is empty.
pub proof fn lemma_range_descending(start: Fraction, stop: Fraction, step: Fraction, fuel: nat)
    requires
        !Fraction::spec_lt(start, stop),
    ensures
        range_seq(start, stop, step, fuel) == Seq::<ExprV>::empty(),
{
}

/// The start, stop and step a `range` call denotes, by its arity.
pub open spec fn range_args(tv: Seq<TypeV>) -> (Fraction, Fraction, Fraction) {
    if tv.len() == 1 {
        (Fraction::from_pair((0, 1)), as_frac(tv[0]), Fraction::from_pair((1, 1)))
    } else if tv.len() == 2 {
        (as_frac(tv[0]), as_frac(tv[1]), Fraction::from_pair((1, 1)))
    } else {
        (as_frac(tv[0]), as_frac(tv[1]), as_frac(tv[2]))
    }
}

/// The `range` built-in: the half-open run of numbers from the start toward
/// the stop. The step must be positive, and the run must stay within the
/// step allowance.
#[verifier::rlimit(4)]
pub fn builtin_range(params: &Vec<Type>) -> (r: Result<Type, GradiaError>)
    ensures
        ({
            let tv = types_view(params@);
            let args = range_args(tv);
            match r {
                Ok(v) => 1 <= tv.len() <= 3 && (args.2.num() > 0 || !Fraction::spec_lt(
                    args.0,
                    args.1,
                )) && !range_stuck(args.0, args.1, args.2, RANGE_LIMIT as nat) && v@
                    == TypeV::List(range_seq(args.0, args.1, args.2, RANGE_LIMIT as nat)),
                Err(e) => (!(1 <= tv.len() <= 3) && e@ == GradiaErrorV::Function(
                    tv.len() as int,
                    3,
                )) || (1 <= tv.len() <= 3 && Fraction::spec_lt(args.0, args.1) && args.2.num() <= 0
                    && e@ == GradiaErrorV::Runtime("range step must be positive"@)) || (1
                    <= tv.len() <= 3 && args.2.num() > 0 && range_stuck(
                    args.0,
                    args.1,
                    args.2,
                    RANGE_LIMIT as nat,
                ) && e@ == GradiaErrorV::Runtime("range is too long"@)),
            }
        }),
{
    proof {
        lemma_types_view_props(params@);
    }
    let ghost tv = types_view(params@);
    let n = params.len();
    if n < 1 || n > 3 {
        return Err(GradiaError::Function(n, 3));
    }
    let start: Fraction;
    let stop: Fraction;
    let step: Fraction;
    if n == 1 {
        let z = Fraction::zero();
        let o = Fraction::one();
        proof {
            Fraction::lemma_parts_in_range(z);
            Fraction::lemma_from_pair((0int, 1int));
            Fraction::lemma_parts_determine(Fraction::from_pair((0int, 1int)), z);
            Fraction::lemma_from_pair((1int, 1int));
            Fraction::lemma_parts_determine(Fraction::from_pair((1int, 1int)), o);
        }
        start = z;
        stop = frac_of(&params[0]);
        step = o;
    } else if n == 2 {
        let o = Fraction::one();
        proof {
            Fraction::lemma_from_pair((1int, 1int));
            Fraction::lemma_parts_determine(Fraction::from_pair((1int, 1int)), o);
        }
        start = frac_of(&params[0]);
        stop = frac_of(&params[1]);
        step = o;
    } else {
        start = frac_of(&params[0]);
        stop = frac_of(&params[1]);
        step = frac_of(&params[2]);
    }
    if !start.lt(stop) {
        // an already-finished range is empty, whatever the step
        let out: Vec<Expr> = Vec::new();
        proof {
            lemma_range_descending(start, stop, step, RANGE_LIMIT as nat);
            assert(exprs_view(out@) =~= Seq::<ExprV>::empty());
        }
        return Ok(Type::List(out));
    }
    if !(step.numerator() > 0) {
        let mut msg: Vec<char> = Vec::new();
        push_str_chars("range step must be positive", &mut msg);
        return Err(GradiaError::Runtime(string_from_chars(&msg)));
    }
    let mut out: Vec<Expr> = Vec::new();
    let mut cur = start;
    let mut k: u64 = 0;
    proof {
        assert(exprs_view(out@) =~= Seq::<ExprV>::empty());
        assert(exprs_view(out@).add(
            range_seq(cur, stop, step, (RANGE_LIMIT - k) as nat),
        ) =~= range_seq(start, stop, step, RANGE_LIMIT as nat));
    }
    while k < RANGE_LIMIT && cur.lt(stop)
        invariant
            k <= RANGE_LIMIT,
            exprs_view(out@).add(range_seq(cur, stop, step, (RANGE_LIMIT - k) as nat)) == range_seq(
                start,
                stop,
                step,
                RANGE_LIMIT as nat,
            ),
            range_stuck(cur, stop, step, (RANGE_LIMIT - k) as nat) == range_stuck(
                start,
                stop,
                step,
                RANGE_LIMIT as nat,
            ),
        decreases RANGE_LIMIT - k,
    {
        let ghost old_out = out@;
        out.push(Expr { expr: Type::Number(cur), annotate: None });
        let next = cur.add(step);
        proof {
            Fraction::lemma_parts_in_range(next);
            Fraction::lemma_from_pair((next.num(), next.den()));
            Fraction::lemma_parts_determine(Fraction::from_pair((next.num(), next.den())), next);
            lemma_exprs_view_props(old_out);
            lemma_exprs_view_props(out@);
            assert forall|j: int|
                0 <= j < exprs_view(out@).len() implies exprs_view(out@)[j] == exprs_view(
                old_out,
            ).push(ExprV { expr: TypeV::Number(cur), annotate: None })[j] by {
                if j < old_out.len() {
                    assert(out@[j] == old_out[j]);
                }
            }
            assert(exprs_view(out@) =~= exprs_view(old_out).push(
                ExprV { expr: TypeV::Number(cur), annotate: None },
            ));
            assert(exprs_view(old_out).add(
                seq![ExprV { expr: TypeV::Number(cur), annotate: None }].add(
                    range_seq(next, stop, step, (RANGE_LIMIT - k - 1) as nat),
                ),
            ) =~= exprs_view(out@).add(range_seq(next, stop, step, (RANGE_LIMIT - k - 1) as nat)));
        }
        cur = next;
        k = k + 1;
    }
    if k == RANGE_LIMIT {
        if cur.lt(stop) {
            let mut msg: Vec<char> = Vec::new();
            push_str_chars("range is too long", &mut msg);
            return Err(GradiaError::Runtime(string_from_chars(&msg)));
        }
    }
    proof {
        assert(range_seq(cur, stop, step, (RANGE_LIMIT - k) as nat) =~= Seq::<ExprV>::empty());
        assert(exprs_view(out@).add(Seq::<ExprV>::empty()) =~= exprs_view(out@));
    }
    Ok(Type::List(out))
}

/// What the arithmetic folds yield, at the mathematical level.
pub open spec fn spec_arith(op: ArithOp, tv: Seq<TypeV>) -> Result<TypeV, GradiaErrorV> {
    if tv.len() == 0 {
        Err(GradiaErrorV::Function(0, 2))
    } else if tv.len() == 1 && op is Minus {
        Ok(
            TypeV::Number(
                Fraction::from_pair(
                    Fraction::spec_sub(Fraction::from_pair((0, 1)), as_frac(tv[0])),
                ),
            ),
        )
    } else {
        Ok(TypeV::Number(fold_arith(op, as_frac(tv[0]), tv.skip(1))))
    }
}

/// What the exponentiation fold yields.
pub open spec fn spec_pow_fold(tv: Seq<TypeV>) -> Result<TypeV, GradiaErrorV> {
    if tv.len() == 0 {
        Err(GradiaErrorV::Function(0, 2))
    } else {
        match fold_pow(as_frac(tv[0]), tv.skip(1)) {
            Some(f) => Ok(TypeV::Number(f)),
            None => Err(GradiaErrorV::Runtime("the exponent must be a whole number"@)),
        }
    }
}

/// What a comparison chain yields.
pub open spec fn spec_cmp_chain(op: CmpOp, tv: Seq<TypeV>) -> Result<TypeV, GradiaErrorV> {
    if tv.len() < 2 {
        Err(GradiaErrorV::Function(tv.len() as int, 2))
    } else {
        Ok(TypeV::Bool(pairwise_cmp(op, tv)))
    }
}

/// What an equality chain yields.
pub open spec fn spec_equality_chain(ne: bool, tv: Seq<TypeV>) -> Result<TypeV, GradiaErrorV> {
    if tv.len() < 2 {
        Err(GradiaErrorV::Function(tv.len() as int, 2))
    } else {
        Ok(
            TypeV::Bool(
                if ne {
                    pairwise_print_ne(tv)
                } else {
                    pairwise_print_eq(tv)
                },
            ),
        )
    }
}

/// What the boolean all/any built-ins yield.
pub open spec fn spec_logic_chain(any: bool, tv: Seq<TypeV>) -> Result<TypeV, GradiaErrorV> {
    if tv.len() < 2 {
        Err(GradiaErrorV::Function(tv.len() as int, 2))
    } else {
        Ok(
            TypeV::Bool(
                if any {
                    any_true(tv)
                } else {
                    all_true(tv)
                },
            ),
        )
    }
}

/// What negation yields.
pub open spec fn spec_not(tv: Seq<TypeV>) -> Result<TypeV, GradiaErrorV> {
    if tv.len() != 1 {
        Err(GradiaErrorV::Function(tv.len() as int, 1))
    } else {
        Ok(TypeV::Bool(!spec_get_bool(tv[0])))
    }
}

/// What concatenation yields.
pub open spec fn spec_concat(tv: Seq<TypeV>) -> Result<TypeV, GradiaErrorV> {
    Ok(TypeV::String(concat_strs(tv)))
}

/// What the coercion built-in yields.
pub open spec fn spec_cast(tv: Seq<TypeV>) -> Result<TypeV, GradiaErrorV> {
    if tv.len() != 2 {
        Err(GradiaErrorV::Function(tv.len() as int, 2))
    } else {
        let cls = spec_get_string(tv[1]);
        if cls == "number"@ {
            Ok(TypeV::Number(as_frac(tv[0])))
        } else if cls == "string"@ {
            Ok(TypeV::String(spec_get_string(tv[0])))
        } else if cls == "bool"@ {
            Ok(TypeV::Bool(spec_get_bool(tv[0])))
        } else if cls == "list"@ {
            Ok(TypeV::List(spec_get_list(tv[0])))
        } else {
            Err(GradiaErrorV::Runtime("unknown type name `"@.add(cls).push('`')))
        }
    }
}

/// What the type-tag built-in yields.
pub open spec fn spec_type_tag(tv: Seq<TypeV>) -> Result<TypeV, GradiaErrorV> {
    if tv.len() != 1 {
        Err(GradiaErrorV::Function(tv.len() as int, 1))
    } else {
        Ok(TypeV::String(spec_type_name(tv[0])))
    }
}

/// What taking a list's head yields.
pub open spec fn spec_car(tv: Seq<TypeV>) -> Result<TypeV, GradiaErrorV> {
    if tv.len() != 1 {
        Err(GradiaErrorV::Function(tv.len() as int, 1))
    } else if spec_get_list(tv[0]).len() == 0 {
        Ok(TypeV::Null)
    } else {
        Ok(spec_get_list(tv[0])[0].expr)
    }
}

/// What taking a list's tail yields.
pub open spec fn spec_cdr(tv: Seq<TypeV>) -> Result<TypeV, GradiaErrorV> {
    if tv.len() != 1 {
        Err(GradiaErrorV::Function(tv.len() as int, 1))
    } else if spec_get_list(tv[0]).len() == 0 {
        Ok(TypeV::List(Seq::empty()))
    } else {
        Ok(TypeV::List(spec_get_list(tv[0]).skip(1)))
    }
}

/// What the range built-in yields.
pub open spec fn spec_range(tv: Seq<TypeV>) -> Result<TypeV, GradiaErrorV> {
    if !(1 <= tv.len() <= 3) {
        Err(GradiaErrorV::Function(tv.len() as int, 3))
    } else {
        let args = range_args(tv);
        if !Fraction::spec_lt(args.0, args.1) {
            Ok(TypeV::List(Seq::empty()))
        } else if args.2.num() <= 0 {
            Err(GradiaErrorV::Runtime("range step must be positive"@))
        } else if range_stuck(args.0, args.1, args.2, RANGE_LIMIT as nat) {
            Err(GradiaErrorV::Runtime("range is too long"@))
        } else {
            Ok(TypeV::List(range_seq(args.0, args.1, args.2, RANGE_LIMIT as nat)))
        }
    }
}

/// What reversing a list yields.
pub open spec fn spec_reverse(tv: Seq<TypeV>) -> Result<TypeV, GradiaErrorV> {
    if tv.len() != 1 {
        Err(GradiaErrorV::Function(tv.len() as int, 1))
    } else {
        Ok(TypeV::List(spec_get_list(tv[0]).reverse()))
    }
}

/// What a list's length yields.
pub open spec fn spec_len(tv: Seq<TypeV>) -> Result<TypeV, GradiaErrorV> {
    if tv.len() != 1 {
        Err(GradiaErrorV::Function(tv.len() as int, 1))
    } else {
        Ok(TypeV::Number(Fraction::from_pair((len_as_int(spec_get_list(tv[0]).len()), 1))))
    }
}

/// What repeating a string yields.
pub open spec fn spec_repeat(tv: Seq<TypeV>) -> Result<TypeV, GradiaErrorV> {
    if tv.len() != 2 {
        Err(GradiaErrorV::Function(tv.len() as int, 2))
    } else {
        Ok(TypeV::String(repeat_str(spec_get_string(tv[0]), count_of(tv[1]))))
    }
}

/// What joining a list yields.
pub open spec fn spec_join(tv: Seq<TypeV>) -> Result<TypeV, GradiaErrorV> {
    if tv.len() != 2 {
        Err(GradiaErrorV::Function(tv.len() as int, 2))
    } else {
        Ok(TypeV::String(join_strs(spec_get_list(tv[0]), spec_get_string(tv[1]))))
    }
}

/// What splitting a string yields.
pub open spec fn spec_split(tv: Seq<TypeV>) -> Result<TypeV, GradiaErrorV> {
    if tv.len() != 2 {
        Err(GradiaErrorV::Function(tv.len() as int, 2))
    } else {
        let parts = split_parts(spec_get_string(tv[0]), spec_get_string(tv[1]));
        Ok(
            TypeV::List(
                Seq::new(
                    parts.len(),
                    |i: int| ExprV { expr: TypeV::String(parts[i]), annotate: None },
                ),
            ),
        )
    }
}

/// What the error built-in raises.
pub open spec fn spec_error_raise(tv: Seq<TypeV>) -> Result<TypeV, GradiaErrorV> {
    Err(
        GradiaErrorV::Runtime(
            if tv.len() == 0 {
                "Something went wrong"@
            } else {
                spec_get_string(tv[0])
            },
        ),
    )
}

/// What building a function value yields.
pub open spec fn spec_lambda(tv: Seq<TypeV>) -> Result<TypeV, GradiaErrorV> {
    if tv.len() < 2 {
        Err(GradiaErrorV::Function(tv.len() as int, 2))
    } else {
        Ok(TypeV::Function(FunctionV::UserDefined(spec_get_list(tv[0]), tv.skip(1))))
    }
}

/// Deep copy of the values from `start` on.
pub fn tail_types(v: &Vec<Type>, start: usize) -> (r: Vec<Type>)
    requires
        start <= v@.len(),
    ensures
        types_view(r@) == types_view(v@).skip(start as int),
{
    proof {
        lemma_types_view_props(v@);
    }
    let n = v.len();
    let mut out: Vec<Type> = Vec::new();
    let mut i: usize = start;
    while i < n
        invariant
            start <= i <= n,
            n == v@.len(),
            out@.len() == i - start,
            forall|j: int|
                0 <= j < i - start ==> crate::types::type_view(#[trigger] out@[j])
                    == crate::types::type_view(v@[start + j]),
        decreases n - i,
    {
        let c = (&v[i]).clone();
        out.push(c);
        i = i + 1;
    }
    proof {
        lemma_types_view_props(out@);
        lemma_types_view_props(v@);
        assert forall|j: int|
            0 <= j < types_view(out@).len() implies types_view(out@)[j] == types_view(v@).skip(
            start as int,
        )[j] by {
            assert(crate::types::type_view(out@[j]) == crate::types::type_view(v@[start + j]));
        }
        assert(types_view(out@) =~= types_view(v@).skip(start as int));
    }
    out
}

} // verus!
