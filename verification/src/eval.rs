//! The tree-walking evaluator: eager left-to-right evaluation of
//! applications, symbol lookup in a mutable scope, annotation checks at every
//! result, user-function calls on a snapshot of the caller's scope, and the
//! built-ins that evaluate code or touch the scope or the host.

use vstd::prelude::*;
use vstd::string::*;
use crate::fraction::Fraction;
use crate::types::{
    Builtin, Class, Expr, ExprV, Function, FunctionV, GradiaError, GradiaErrorV, Type, TypeV,
    clone_exprs, expr_view, exprs_view, lemma_exprs_view_props, lemma_types_view_props, type_view,
    types_view,
};
use crate::coerce::{spec_get_bool, spec_get_list, spec_get_string, spec_type_name};
use crate::print::{class_name, push_str_chars};
use crate::scope::Scope;
use crate::text::{chars_of_str, trim_chars, string_from_chars};
use crate::builtins::{
    ArithOp, CmpOp, builtin_arith, builtin_car, builtin_cast, builtin_cdr, builtin_cmp,
    builtin_concat, builtin_equality, builtin_error, builtin_join, builtin_lambda, builtin_len,
    builtin_logic, builtin_not, builtin_pow, builtin_range, builtin_repeat, builtin_reverse,
    builtin_split, builtin_type_of, concat_strs, frac_of, tail_types, spec_arith, spec_pow_fold,
    spec_cmp_chain, spec_equality_chain, spec_logic_chain, spec_not, spec_concat, spec_cast,
    spec_type_tag, spec_car, spec_cdr, spec_range, spec_reverse, spec_len, spec_repeat, spec_join,
    spec_split, spec_error_raise, spec_lambda,
};

verus! {

/// How an evaluation ends when it does not produce a value: a failure that
/// `try` can catch, or a request to end the process that nothing catches.
pub enum Signal {
    Fail(GradiaError),
    Exit(i64),
}

/// The ghost view of a signal.
#[verifier::ext_equal]
pub enum SignalV {
    Fail(GradiaErrorV),
    Exit(int),
}

pub open spec fn signal_view(s: Signal) -> SignalV {
    match s {
        Signal::Fail(e) => SignalV::Fail(crate::types::err_view(e)),
        Signal::Exit(c) => SignalV::Exit(c as int),
    }
}

impl View for Signal {
    type V = SignalV;

    open spec fn view(&self) -> SignalV {
        signal_view(*self)
    }
}

/// The view of an evaluation outcome.
pub open spec fn res_view(r: Result<Type, Signal>) -> Result<TypeV, SignalV> {
    match r {
        Ok(t) => Ok(type_view(t)),
        Err(s) => Err(signal_view(s)),
    }
}

/// What checking a result against an optional annotation yields: the value
/// when it matches or no class is asked, else a type error naming both.
pub open spec fn annot_check(v: TypeV, a: Option<Class>) -> Result<TypeV, SignalV> {
    match a {
        None => Ok(v),
        Some(c) => if spec_type_name(v) == class_name(c) {
            Ok(v)
        } else {
            Err(SignalV::Fail(GradiaErrorV::Type(v, class_name(c))))
        },
    }
}

/// Checks a result value against an optional annotation.
fn check_annotation(v: Type, a: &Option<Class>) -> (r: Result<Type, Signal>)
    ensures
        res_view(r) == annot_check(v@, *a),
{
    match a {
        None => Ok(v),
        Some(c) => {
            let tn = v.get_type();
            let cn = c.get_type();
            if tn == cn {
                Ok(v)
            } else {
                Err(Signal::Fail(GradiaError::Type(v, cn)))
            }
        },
    }
}

/// What running an expression yields at the mathematical level: the result
/// and the scope after it — or the mark that the run reached the host's
/// input, beyond which nothing is determined by the program alone.
#[verifier::ext_equal]
pub enum EvalOut {
    Done(Result<TypeV, SignalV>, Map<Seq<char>, TypeV>),
    Input,
}

/// What running several expressions in order yields.
#[verifier::ext_equal]
pub enum EvalMany {
    Done(Result<Seq<TypeV>, SignalV>, Map<Seq<char>, TypeV>),
    Input,
}

/// Wraps a pure built-in's failure as a catchable signal, in the spec.
pub open spec fn lift_errv(r: Result<TypeV, GradiaErrorV>) -> Result<TypeV, SignalV> {
    match r {
        Ok(v) => Ok(v),
        Err(e) => Err(SignalV::Fail(e)),
    }
}

/// The data form of a raw argument to a quote-like built-in.
pub open spec fn data_of(e: ExprV) -> TypeV {
    match e.expr {
        TypeV::Expr(items) => TypeV::List(items),
        other => other,
    }
}

/// A value about to be run as an operand or body line: a list runs as an
/// application, anything else evaluates as itself.
pub open spec fn as_run(d: TypeV) -> ExprV {
    ExprV {
        expr: match d {
            TypeV::List(es) => TypeV::Expr(es),
            other => other,
        },
        annotate: None,
    }
}

/// Whether an application's head receives its raw arguments as data.
pub open spec fn quote_like(first: TypeV, children: Seq<ExprV>) -> bool {
    match first {
        TypeV::Function(FunctionV::BuiltIn(b)) => b == Builtin::Lambda || b == Builtin::IfOp || b
            == Builtin::TryOp || (b == Builtin::Define && children.len() >= 2 && (
        children[1].expr is Expr || children[1].expr is List)),
        _ => false,
    }
}

/// The message when the head of an application is no function.
pub open spec fn not_function_msg(first: TypeV) -> Seq<char> {
    "first atom in expression should be function, but provided `"@.add(
        crate::print::print_type(first),
    ).add("` is not function"@)
}

/// The message when the evaluation depth allowance runs out.
pub open spec fn depth_msg() -> Seq<char> {
    "evaluation depth limit reached"@
}

/// What `define` yields and how it changes the scope.
pub open spec fn spec_define(tv: Seq<TypeV>, scope: Map<Seq<char>, TypeV>) -> (
    Result<TypeV, SignalV>,
    Map<Seq<char>, TypeV>,
) {
    if tv.len() < 2 {
        (Err(SignalV::Fail(GradiaErrorV::Function(tv.len() as int, 2))), scope)
    } else {
        match tv[0] {
            TypeV::List(largs) => {
                if largs.len() == 0 {
                    (
                        Err(SignalV::Fail(GradiaErrorV::Runtime("the defined name is missing"@))),
                        scope,
                    )
                } else {
                    let value = TypeV::Function(FunctionV::UserDefined(largs.skip(1), tv.skip(1)));
                    (Ok(value), scope.insert(spec_get_string(largs[0].expr), value))
                }
            },
            _ => (Ok(tv[1]), scope.insert(spec_get_string(tv[0]), tv[1])),
        }
    }
}

/// What appending printed text to the `stdout` slot leaves in the scope.
pub open spec fn spec_print_slot(tv: Seq<TypeV>, scope: Map<Seq<char>, TypeV>) -> Map<
    Seq<char>,
    TypeV,
> {
    scope.insert(
        "stdout"@,
        TypeV::String(
            (if scope.contains_key("stdout"@) {
                spec_get_string(scope["stdout"@])
            } else {
                Seq::empty()
            }).add(concat_strs(tv)),
        ),
    )
}

/// What `exit` requests.
pub open spec fn spec_exit(tv: Seq<TypeV>) -> SignalV {
    SignalV::Exit(
        if tv.len() == 0 {
            0
        } else {
            Fraction::trunc_div(
                crate::builtins::as_frac(tv[0]).num(),
                crate::builtins::as_frac(tv[0]).den(),
            )
        },
    )
}

/// The scope of a user-function call: the caller's scope with each argument
/// bound to its parameter's string reading, in order.
pub open spec fn bind_all(ps: Seq<ExprV>, args: Seq<TypeV>, scope: Map<Seq<char>, TypeV>) -> Map<
    Seq<char>,
    TypeV,
>
    decreases ps.len(),
{
    if ps.len() == 0 || args.len() == 0 {
        scope
    } else {
        bind_all(ps.skip(1), args.skip(1), scope.insert(spec_get_string(ps[0].expr), args[0]))
    }
}

/// Running one annotated expression: the mirror of the evaluator. An
/// application runs its head, hands quote-like built-ins their raw arguments
/// as data and every other callee its evaluated arguments, dispatches, and
/// checks the annotation on a produced value; symbols look themselves up;
/// anything else stands for itself.
pub open spec fn spec_eval(e: ExprV, scope: Map<Seq<char>, TypeV>, fuel: nat) -> EvalOut
    decreases fuel, 9int, 0int,
{
    match e.expr {
        TypeV::Expr(children) => {
            if fuel == 0 {
                EvalOut::Done(Err(SignalV::Fail(GradiaErrorV::Runtime(depth_msg()))), scope)
            } else if children.len() == 0 {
                EvalOut::Done(
                    Err(SignalV::Fail(GradiaErrorV::Syntax(not_function_msg(TypeV::Null)))),
                    scope,
                )
            } else {
                match spec_eval(children[0], scope, (fuel - 1) as nat) {
                    EvalOut::Input => EvalOut::Input,
                    EvalOut::Done(Err(s), sc1) => EvalOut::Done(Err(s), sc1),
                    EvalOut::Done(Ok(first), sc1) => {
                        if quote_like(first, children) {
                            let args = Seq::new(
                                (children.len() - 1) as nat,
                                |i: int| data_of(children[i + 1]),
                            );
                            spec_dispatch(e, first, args, sc1, fuel)
                        } else {
                            match spec_eval_list(children.skip(1), sc1, fuel) {
                                EvalMany::Input => EvalOut::Input,
                                EvalMany::Done(Err(s), sc2) => EvalOut::Done(Err(s), sc2),
                                EvalMany::Done(Ok(args), sc2) => spec_dispatch(
                                    e,
                                    first,
                                    args,
                                    sc2,
                                    fuel,
                                ),
                            }
                        }
                    },
                }
            }
        },
        TypeV::Symbol(name) => EvalOut::Done(
            annot_check(
                if scope.contains_key(name) {
                    scope[name]
                } else {
                    TypeV::Symbol(name)
                },
                e.annotate,
            ),
            scope,
        ),
        other => EvalOut::Done(annot_check(other, e.annotate), scope),
    }
}

/// Applying the evaluated head, then checking the expression's annotation on
/// a produced value. A user-defined callee runs on a snapshot: the caller's
/// scope comes through unchanged.
pub open spec fn spec_dispatch(
    e: ExprV,
    first: TypeV,
    args: Seq<TypeV>,
    scope: Map<Seq<char>, TypeV>,
    fuel: nat,
) -> EvalOut
    decreases fuel, 8int, 0int,
{
    match first {
        TypeV::Function(FunctionV::BuiltIn(b)) => match spec_apply(b, args, scope, fuel) {
            EvalOut::Input => EvalOut::Input,
            EvalOut::Done(Err(s), sc) => EvalOut::Done(Err(s), sc),
            EvalOut::Done(Ok(v), sc) => EvalOut::Done(annot_check(v, e.annotate), sc),
        },
        TypeV::Function(FunctionV::UserDefined(ps, body)) => match spec_call_user(
            ps,
            body,
            args,
            scope,
            fuel,
        ) {
            EvalOut::Input => EvalOut::Input,
            EvalOut::Done(Err(s), _) => EvalOut::Done(Err(s), scope),
            EvalOut::Done(Ok(v), _) => EvalOut::Done(annot_check(v, e.annotate), scope),
        },
        other => EvalOut::Done(
            Err(SignalV::Fail(GradiaErrorV::Syntax(not_function_msg(other)))),
            scope,
        ),
    }
}

/// Running the arguments of an application left to right; a failure stops.
pub open spec fn spec_eval_list(items: Seq<ExprV>, scope: Map<Seq<char>, TypeV>, fuel: nat) -> EvalMany
    decreases fuel, 8int, items.len() + 1,
{
    if fuel == 0 {
        EvalMany::Done(Err(SignalV::Fail(GradiaErrorV::Runtime(depth_msg()))), scope)
    } else if items.len() == 0 {
        EvalMany::Done(Ok(Seq::empty()), scope)
    } else {
        match spec_eval(items[0], scope, (fuel - 1) as nat) {
            EvalOut::Input => EvalMany::Input,
            EvalOut::Done(Err(s), sc) => EvalMany::Done(Err(s), sc),
            EvalOut::Done(Ok(v), sc) => match spec_eval_list(items.skip(1), sc, fuel) {
                EvalMany::Input => EvalMany::Input,
                EvalMany::Done(Err(s), sc2) => EvalMany::Done(Err(s), sc2),
                EvalMany::Done(Ok(rest), sc2) => EvalMany::Done(Ok(seq![v].add(rest)), sc2),
            },
        }
    }
}

/// Applying a user-defined function: the arity check, the annotated bindings
/// into a snapshot, then the body lines.
pub open spec fn spec_call_user(
    ps: Seq<ExprV>,
    body: Seq<TypeV>,
    args: Seq<TypeV>,
    scope: Map<Seq<char>, TypeV>,
    fuel: nat,
) -> EvalOut
    decreases fuel, 6int, 0int,
{
    if ps.len() != args.len() {
        EvalOut::Done(
            Err(SignalV::Fail(GradiaErrorV::Function(args.len() as int, ps.len() as int))),
            scope,
        )
    } else {
        match bind_check(ps, args) {
            Some(p) => EvalOut::Done(Err(SignalV::Fail(GradiaErrorV::Type(p.0, p.1))), scope),
            None => spec_body(body, TypeV::Null, bind_all(ps, args, scope), fuel),
        }
    }
}

/// Running body lines in order: a list line runs as an application; the last
/// value wins, null for no lines.
pub open spec fn spec_body(
    lines: Seq<TypeV>,
    acc: TypeV,
    scope: Map<Seq<char>, TypeV>,
    fuel: nat,
) -> EvalOut
    decreases fuel, 5int, lines.len() + 1,
{
    if fuel == 0 {
        EvalOut::Done(Err(SignalV::Fail(GradiaErrorV::Runtime(depth_msg()))), scope)
    } else if lines.len() == 0 {
        EvalOut::Done(Ok(acc), scope)
    } else {
        match spec_eval(as_run(lines[0]), scope, (fuel - 1) as nat) {
            EvalOut::Input => EvalOut::Input,
            EvalOut::Done(Err(s), sc) => EvalOut::Done(Err(s), sc),
            EvalOut::Done(Ok(v), sc) => spec_body(lines.skip(1), v, sc, fuel),
        }
    }
}

/// The left fold of `reduce`, run in the discarded snapshot scope.
pub open spec fn spec_reduce_loop(
    acc: TypeV,
    func: TypeV,
    items: Seq<ExprV>,
    scope: Map<Seq<char>, TypeV>,
    fuel: nat,
) -> EvalOut
    decreases fuel, 3int, items.len() + 1,
{
    if fuel == 0 {
        EvalOut::Done(Err(SignalV::Fail(GradiaErrorV::Runtime(depth_msg()))), scope)
    } else if items.len() == 0 {
        EvalOut::Done(Ok(acc), scope)
    } else {
        let call = ExprV {
            expr: TypeV::Expr(
                seq![
                    ExprV { expr: func, annotate: None },
                    ExprV { expr: acc, annotate: None },
                    items[0],
                ],
            ),
            annotate: None,
        };
        match spec_eval(call, scope, (fuel - 1) as nat) {
            EvalOut::Input => EvalOut::Input,
            EvalOut::Done(Err(s), sc) => EvalOut::Done(Err(s), sc),
            EvalOut::Done(Ok(v), sc) => spec_reduce_loop(v, func, items.skip(1), sc, fuel),
        }
    }
}

/// The clause walk of `cond`: the first clause whose test reads true runs its
/// body; a headless clause, or no clause at all, yields null.
pub open spec fn spec_cond_loop(
    clauses: Seq<TypeV>,
    scope: Map<Seq<char>, TypeV>,
    fuel: nat,
) -> EvalOut
    decreases fuel, 5int, clauses.len() + 1,
{
    if fuel == 0 {
        EvalOut::Done(Err(SignalV::Fail(GradiaErrorV::Runtime(depth_msg()))), scope)
    } else if clauses.len() == 0 {
        EvalOut::Done(Ok(TypeV::Null), scope)
    } else {
        let clause = spec_get_list(clauses[0]);
        if clause.len() == 0 {
            EvalOut::Done(Ok(TypeV::Null), scope)
        } else {
            match spec_eval(clause[0], scope, (fuel - 1) as nat) {
                EvalOut::Input => EvalOut::Input,
                EvalOut::Done(Err(s), sc) => EvalOut::Done(Err(s), sc),
                EvalOut::Done(Ok(tested), sc) => {
                    if spec_get_bool(tested) {
                        if clause.len() >= 2 {
                            match spec_eval(clause[1], sc, (fuel - 1) as nat) {
                                EvalOut::Input => EvalOut::Input,
                                EvalOut::Done(Err(s), sc2) => EvalOut::Done(Err(s), sc2),
                                EvalOut::Done(Ok(code), sc2) => spec_eval(
                                    as_run(code),
                                    sc2,
                                    (fuel - 1) as nat,
                                ),
                            }
                        } else {
                            EvalOut::Done(Ok(TypeV::Null), sc)
                        }
                    } else {
                        spec_cond_loop(clauses.skip(1), sc, fuel)
                    }
                },
            }
        }
    }
}

/// The line walk of the `eval` built-in: the last result wins.
pub open spec fn spec_evalop_loop(
    items: Seq<TypeV>,
    acc: TypeV,
    scope: Map<Seq<char>, TypeV>,
    fuel: nat,
) -> EvalOut
    decreases fuel, 5int, items.len() + 1,
{
    if fuel == 0 {
        EvalOut::Done(Err(SignalV::Fail(GradiaErrorV::Runtime(depth_msg()))), scope)
    } else if items.len() == 0 {
        EvalOut::Done(Ok(acc), scope)
    } else {
        let call = ExprV { expr: TypeV::Expr(spec_get_list(items[0])), annotate: None };
        match spec_eval(call, scope, (fuel - 1) as nat) {
            EvalOut::Input => EvalOut::Input,
            EvalOut::Done(Err(s), sc) => EvalOut::Done(Err(s), sc),
            EvalOut::Done(Ok(v), sc) => spec_evalop_loop(items.skip(1), v, sc, fuel),
        }
    }
}

/// The element walk of `map`: the collected results, each unannotated.
pub open spec fn spec_map_loop(
    func: TypeV,
    items: Seq<ExprV>,
    done: Seq<ExprV>,
    scope: Map<Seq<char>, TypeV>,
    fuel: nat,
) -> EvalOut
    decreases fuel, 3int, items.len() + 1,
{
    if fuel == 0 {
        EvalOut::Done(Err(SignalV::Fail(GradiaErrorV::Runtime(depth_msg()))), scope)
    } else if items.len() == 0 {
        EvalOut::Done(Ok(TypeV::List(done)), scope)
    } else {
        let call = ExprV {
            expr: TypeV::Expr(seq![ExprV { expr: func, annotate: None }, items[0]]),
            annotate: None,
        };
        match spec_eval(call, scope, (fuel - 1) as nat) {
            EvalOut::Input => EvalOut::Input,
            EvalOut::Done(Err(s), sc) => EvalOut::Done(Err(s), sc),
            EvalOut::Done(Ok(v), sc) => spec_map_loop(
                func,
                items.skip(1),
                done.push(ExprV { expr: v, annotate: None }),
                sc,
                fuel,
            ),
        }
    }
}

/// The element walk of `filter`: the kept elements, as parsed.
pub open spec fn spec_filter_loop(
    func: TypeV,
    items: Seq<ExprV>,
    done: Seq<ExprV>,
    scope: Map<Seq<char>, TypeV>,
    fuel: nat,
) -> EvalOut
    decreases fuel, 3int, items.len() + 1,
{
    if fuel == 0 {
        EvalOut::Done(Err(SignalV::Fail(GradiaErrorV::Runtime(depth_msg()))), scope)
    } else if items.len() == 0 {
        EvalOut::Done(Ok(TypeV::List(done)), scope)
    } else {
        let call = ExprV {
            expr: TypeV::Expr(seq![ExprV { expr: func, annotate: None }, items[0]]),
            annotate: None,
        };
        match spec_eval(call, scope, (fuel - 1) as nat) {
            EvalOut::Input => EvalOut::Input,
            EvalOut::Done(Err(s), sc) => EvalOut::Done(Err(s), sc),
            EvalOut::Done(Ok(v), sc) => spec_filter_loop(
                func,
                items.skip(1),
                if spec_get_bool(v) {
                    done.push(items[0])
                } else {
                    done
                },
                sc,
                fuel,
            ),
        }
    }
}

/// Applying a built-in to its arguments: the pure ones through their result
/// functions, the quote-like and walking ones through their own mirrors, and
/// `input` as the mark that the host decides from here.
pub open spec fn spec_apply(b: Builtin, tv: Seq<TypeV>, scope: Map<Seq<char>, TypeV>, fuel: nat) -> EvalOut
    decreases fuel, 7int, 0int,
{
    if fuel == 0 {
        EvalOut::Done(Err(SignalV::Fail(GradiaErrorV::Runtime(depth_msg()))), scope)
    } else {
        match b {
            Builtin::Add => EvalOut::Done(lift_errv(spec_arith(ArithOp::Plus, tv)), scope),
            Builtin::Sub => EvalOut::Done(lift_errv(spec_arith(ArithOp::Minus, tv)), scope),
            Builtin::Mul => EvalOut::Done(lift_errv(spec_arith(ArithOp::Times, tv)), scope),
            Builtin::Div => EvalOut::Done(lift_errv(spec_arith(ArithOp::Over, tv)), scope),
            Builtin::Rem => EvalOut::Done(lift_errv(spec_arith(ArithOp::Modulo, tv)), scope),
            Builtin::Pow => EvalOut::Done(lift_errv(spec_pow_fold(tv)), scope),
            Builtin::Concat => EvalOut::Done(lift_errv(spec_concat(tv)), scope),
            Builtin::EqOp => EvalOut::Done(lift_errv(spec_equality_chain(false, tv)), scope),
            Builtin::NeOp => EvalOut::Done(lift_errv(spec_equality_chain(true, tv)), scope),
            Builtin::GtOp => EvalOut::Done(lift_errv(spec_cmp_chain(CmpOp::Greater, tv)), scope),
            Builtin::GeOp => EvalOut::Done(lift_errv(spec_cmp_chain(CmpOp::GreaterEq, tv)), scope),
            Builtin::LtOp => EvalOut::Done(lift_errv(spec_cmp_chain(CmpOp::Less, tv)), scope),
            Builtin::LeOp => EvalOut::Done(lift_errv(spec_cmp_chain(CmpOp::LessEq, tv)), scope),
            Builtin::AndOp => EvalOut::Done(lift_errv(spec_logic_chain(false, tv)), scope),
            Builtin::OrOp => EvalOut::Done(lift_errv(spec_logic_chain(true, tv)), scope),
            Builtin::NotOp => EvalOut::Done(lift_errv(spec_not(tv)), scope),
            Builtin::Cast => EvalOut::Done(lift_errv(spec_cast(tv)), scope),
            Builtin::TypeOf => EvalOut::Done(lift_errv(spec_type_tag(tv)), scope),
            Builtin::Car => EvalOut::Done(lift_errv(spec_car(tv)), scope),
            Builtin::Cdr => EvalOut::Done(lift_errv(spec_cdr(tv)), scope),
            Builtin::Range => EvalOut::Done(lift_errv(spec_range(tv)), scope),
            Builtin::Reverse => EvalOut::Done(lift_errv(spec_reverse(tv)), scope),
            Builtin::Len => EvalOut::Done(lift_errv(spec_len(tv)), scope),
            Builtin::Repeat => EvalOut::Done(lift_errv(spec_repeat(tv)), scope),
            Builtin::Join => EvalOut::Done(lift_errv(spec_join(tv)), scope),
            Builtin::Split => EvalOut::Done(lift_errv(spec_split(tv)), scope),
            Builtin::ErrorOp => EvalOut::Done(lift_errv(spec_error_raise(tv)), scope),
            Builtin::Lambda => EvalOut::Done(lift_errv(spec_lambda(tv)), scope),
            Builtin::Define => {
                let p = spec_define(tv, scope);
                EvalOut::Done(p.0, p.1)
            },
            Builtin::Reduce => {
                if tv.len() != 2 {
                    EvalOut::Done(
                        Err(SignalV::Fail(GradiaErrorV::Function(tv.len() as int, 2))),
                        scope,
                    )
                } else {
                    let list = spec_get_list(tv[0]);
                    if list.len() == 0 {
                        EvalOut::Done(
                            Err(SignalV::Fail(GradiaErrorV::Runtime("passed list is empty"@))),
                            scope,
                        )
                    } else {
                        match spec_reduce_loop(list[0].expr, tv[1], list.skip(1), scope, fuel) {
                            EvalOut::Input => EvalOut::Input,
                            EvalOut::Done(res, _) => EvalOut::Done(res, scope),
                        }
                    }
                }
            },
            Builtin::TryOp => {
                if tv.len() == 0 {
                    EvalOut::Done(Err(SignalV::Fail(GradiaErrorV::Function(0, 2))), scope)
                } else {
                    match spec_eval(as_run(tv[0]), scope, (fuel - 1) as nat) {
                        EvalOut::Input => EvalOut::Input,
                        EvalOut::Done(tried, sc1) => {
                            if tv.len() != 2 {
                                EvalOut::Done(
                                    Err(
                                        SignalV::Fail(
                                            GradiaErrorV::Function(tv.len() as int, 2),
                                        ),
                                    ),
                                    sc1,
                                )
                            } else {
                                match tried {
                                    Ok(v) => EvalOut::Done(Ok(v), sc1),
                                    Err(SignalV::Exit(c)) => EvalOut::Done(
                                        Err(SignalV::Exit(c)),
                                        sc1,
                                    ),
                                    Err(SignalV::Fail(_)) => spec_eval(
                                        as_run(tv[1]),
                                        sc1,
                                        (fuel - 1) as nat,
                                    ),
                                }
                            }
                        },
                    }
                }
            },
            Builtin::IfOp => {
                if !(tv.len() == 2 || tv.len() == 3) {
                    EvalOut::Done(
                        Err(SignalV::Fail(GradiaErrorV::Function(tv.len() as int, 3))),
                        scope,
                    )
                } else {
                    match spec_eval(as_run(tv[0]), scope, (fuel - 1) as nat) {
                        EvalOut::Input => EvalOut::Input,
                        EvalOut::Done(Err(s), sc1) => EvalOut::Done(Err(s), sc1),
                        EvalOut::Done(Ok(cv), sc1) => {
                            if spec_get_bool(cv) {
                                spec_eval(as_run(tv[1]), sc1, (fuel - 1) as nat)
                            } else if tv.len() == 3 {
                                spec_eval(as_run(tv[2]), sc1, (fuel - 1) as nat)
                            } else {
                                EvalOut::Done(Ok(TypeV::Null), sc1)
                            }
                        },
                    }
                }
            },
            Builtin::Cond => spec_cond_loop(tv, scope, fuel),
            Builtin::EvalOp => spec_evalop_loop(tv, TypeV::Null, scope, fuel),
            Builtin::MapOp => {
                if tv.len() != 2 {
                    EvalOut::Done(
                        Err(SignalV::Fail(GradiaErrorV::Function(tv.len() as int, 2))),
                        scope,
                    )
                } else {
                    spec_map_loop(tv[1], spec_get_list(tv[0]), Seq::empty(), scope, fuel)
                }
            },
            Builtin::Filter => {
                if tv.len() != 2 {
                    EvalOut::Done(
                        Err(SignalV::Fail(GradiaErrorV::Function(tv.len() as int, 2))),
                        scope,
                    )
                } else {
                    spec_filter_loop(tv[1], spec_get_list(tv[0]), Seq::empty(), scope, fuel)
                }
            },
            Builtin::Print => EvalOut::Done(Ok(TypeV::Null), scope),
            Builtin::PrintSlot => EvalOut::Done(Ok(TypeV::Null), spec_print_slot(tv, scope)),
            Builtin::DebugOp => EvalOut::Done(Ok(TypeV::Null), scope),
            Builtin::Input => {
                if tv.len() > 1 {
                    EvalOut::Done(
                        Err(SignalV::Fail(GradiaErrorV::Function(tv.len() as int, 1))),
                        scope,
                    )
                } else {
                    EvalOut::Input
                }
            },
            Builtin::Exit => EvalOut::Done(Err(spec_exit(tv)), scope),
            Builtin::Identity => {
                if tv.len() == 0 {
                    EvalOut::Done(Err(SignalV::Fail(GradiaErrorV::Function(0, 1))), scope)
                } else {
                    EvalOut::Done(Ok(tv[0]), scope)
                }
            },
        }
    }
}

/// Whether a bound argument satisfies the parameter's annotation.
pub open spec fn annot_ok(p: ExprV, v: TypeV) -> bool {
    match p.annotate {
        Some(c) => class_name(c) == spec_type_name(v),
        None => true,
    }
}

/// The first argument whose annotation check fails, with the class name it
/// missed; nothing when every binding checks.
pub open spec fn bind_check(ps: Seq<ExprV>, vs: Seq<TypeV>) -> Option<(TypeV, Seq<char>)>
    decreases ps.len(),
{
    if ps.len() == 0 || vs.len() == 0 {
        None
    } else if !annot_ok(ps[0], vs[0]) {
        Some((vs[0], class_name(ps[0].annotate.unwrap())))
    } else {
        bind_check(ps.skip(1), vs.skip(1))
    }
}

/// Deep copy of the annotated expressions from `start` on.
pub fn tail_exprs(v: &Vec<Expr>, start: usize) -> (r: Vec<Expr>)
    requires
        start <= v@.len(),
    ensures
        exprs_view(r@) == exprs_view(v@).skip(start as int),
{
    proof {
        lemma_exprs_view_props(v@);
    }
    let n = v.len();
    let mut out: Vec<Expr> = Vec::new();
    let mut i: usize = start;
    while i < n
        invariant
            start <= i <= n,
            n == v@.len(),
            out@.len() == i - start,
            forall|j: int|
                0 <= j < i - start ==> expr_view(#[trigger] out@[j]) == expr_view(v@[start + j]),
        decreases n - i,
    {
        let c = (&v[i]).clone();
        out.push(c);
        i = i + 1;
    }
    proof {
        lemma_exprs_view_props(out@);
        lemma_exprs_view_props(v@);
        assert forall|j: int|
            0 <= j < exprs_view(out@).len() implies exprs_view(out@)[j] == exprs_view(v@).skip(
            start as int,
        )[j] by {
            assert(expr_view(out@[j]) == expr_view(v@[start + j]));
        }
        assert(exprs_view(out@) =~= exprs_view(v@).skip(start as int));
    }
    out
}

/// Applies a user-defined function: checks the argument count, binds each
/// argument into a snapshot of the caller's scope after checking its
/// annotation, then runs the body lines in order. The caller's scope is read,
/// never written: definitions made inside the call do not escape.
pub fn call_user(
    params: &Vec<Expr>,
    code: &Vec<Type>,
    args: Vec<Type>,
    scope: &Scope,
    fuel: u64,
) -> (r: Result<Type, Signal>)
    requires
        fuel >= 1,
    ensures
        params@.len() != args@.len() ==> res_view(r) == Err::<TypeV, SignalV>(
            SignalV::Fail(GradiaErrorV::Function(args@.len() as int, params@.len() as int)),
        ),
        params@.len() == args@.len() ==> match bind_check(exprs_view(params@), types_view(args@)) {
            Some(p) => res_view(r) == Err::<TypeV, SignalV>(
                SignalV::Fail(GradiaErrorV::Type(p.0, p.1)),
            ),
            None => true,
        },
        (match spec_call_user(
            exprs_view(params@),
            types_view(code@),
            types_view(args@),
            scope@,
            fuel as nat,
        ) {
            EvalOut::Done(res, _) => res_view(r) == res,
            EvalOut::Input => true,
        }),
    decreases fuel, 1int,
{
    proof {
        lemma_exprs_view_props(params@);
        lemma_types_view_props(args@);
        lemma_types_view_props(code@);
    }
    let ghost pv = exprs_view(params@);
    let ghost av = types_view(args@);
    let ghost bw = types_view(code@);
    if params.len() != args.len() {
        proof {
            assert(spec_call_user(pv, bw, av, scope@, fuel as nat) == EvalOut::Done(
                Err(SignalV::Fail(GradiaErrorV::Function(av.len() as int, pv.len() as int))),
                scope@,
            ));
        }
        return Err(Signal::Fail(GradiaError::Function(args.len(), params.len())));
    }
    let mut func_scope = scope.clone();
    let n = params.len();
    let mut i: usize = 0;
    proof {
        assert(pv.skip(0) =~= pv);
        assert(av.skip(0) =~= av);
    }
    while i < n
        invariant
            0 <= i <= n,
            n == params@.len(),
            n == args@.len(),
            pv == exprs_view(params@),
            av == types_view(args@),
            pv.len() == n,
            av.len() == n,
            forall|j: int| 0 <= j < n ==> pv[j] == expr_view(#[trigger] params@[j]),
            forall|j: int| 0 <= j < n ==> av[j] == type_view(#[trigger] args@[j]),
            bind_check(pv.skip(i as int), av.skip(i as int)) == bind_check(pv, av),
            bind_all(pv.skip(i as int), av.skip(i as int), func_scope@) == bind_all(
                pv,
                av,
                scope@,
            ),
        decreases n - i,
    {
        proof {
            assert(pv.skip(i as int)[0] == pv[i as int]);
            assert(av.skip(i as int)[0] == av[i as int]);
            assert(pv.skip(i as int).skip(1) =~= pv.skip(i as int + 1));
            assert(av.skip(i as int).skip(1) =~= av.skip(i as int + 1));
        }
        let p = &params[i];
        let v = (&args[i]).clone();
        match &p.annotate {
            Some(c) => {
                let cn = c.get_type();
                let vn = v.get_type();
                if cn == vn {
                    func_scope.insert(p.expr.get_string(), v);
                } else {
                    proof {
                        assert(bind_check(pv, av) == Some((av[i as int], class_name(*c))));
                        assert(spec_call_user(pv, bw, av, scope@, fuel as nat) == EvalOut::Done(
                            Err(SignalV::Fail(GradiaErrorV::Type(av[i as int], class_name(*c)))),
                            scope@,
                        ));
                    }
                    return Err(Signal::Fail(GradiaError::Type(v, cn)));
                }
            },
            None => {
                func_scope.insert(p.expr.get_string(), v);
            },
        }
        i = i + 1;
    }
    proof {
        assert(pv.skip(n as int).len() == 0);
        assert(av.skip(n as int).len() == 0);
        assert(bind_check(pv, av) is None);
        assert(func_scope@ == bind_all(pv, av, scope@));
        assert(bw.skip(0) =~= bw);
    }
    let ghost full = spec_body(bw, TypeV::Null, bind_all(pv, av, scope@), fuel as nat);
    let mut result: Type = Type::Null;
    let m = code.len();
    let mut k: usize = 0;
    while k < m
        invariant
            0 <= k <= m,
            m == code@.len(),
            fuel >= 1,
            params@.len() == args@.len(),
            bind_check(exprs_view(params@), types_view(args@)) is None,
            pv.len() == av.len(),
            bw == types_view(code@),
            bw.len() == m,
            forall|j: int| 0 <= j < m ==> bw[j] == type_view(#[trigger] code@[j]),
            full == spec_body(bw, TypeV::Null, bind_all(pv, av, scope@), fuel as nat),
            pv == exprs_view(params@),
            av == types_view(args@),
            full == EvalOut::Input || full == spec_body(
                bw.skip(k as int),
                result@,
                func_scope@,
                fuel as nat,
            ),
        decreases m - k,
    {
        proof {
            assert(bw.skip(k as int)[0] == bw[k as int]);
            assert(bw.skip(k as int).skip(1) =~= bw.skip(k as int + 1));
        }
        let line = &code[k];
        let line_value: Type = if let Type::List(es) = line {
            Type::Expr(clone_exprs(es))
        } else {
            line.clone()
        };
        let e = Expr { expr: line_value, annotate: None };
        proof {
            assert(e@ =~= as_run(bw[k as int]));
        }
        let ghost fs_pre = func_scope@;
        let ghost res_pre = result@;
        match e.eval_fuel(&mut func_scope, fuel - 1) {
            Ok(v) => {
                result = v;
            },
            Err(s) => {
                proof {
                    let child = spec_eval(as_run(bw[k as int]), fs_pre, (fuel - 1) as nat);
                    if full != EvalOut::Input {
                        assert(full == spec_body(bw.skip(k as int), res_pre, fs_pre, fuel as nat));
                        assert(child == EvalOut::Done(Err(s@), func_scope@));
                        assert(full == EvalOut::Done(Err(s@), func_scope@));
                        assert(spec_call_user(pv, bw, av, scope@, fuel as nat) == full);
                    }
                }
                return Err(s);
            },
        }
        k = k + 1;
    }
    proof {
        assert(bw.skip(m as int).len() == 0);
        if full != EvalOut::Input {
            assert(full == EvalOut::Done(Ok::<TypeV, SignalV>(result@), func_scope@));
            assert(spec_call_user(pv, bw, av, scope@, fuel as nat) == full);
        }
    }
    Ok(result)
}

impl Expr {
    /// Evaluates this annotated expression in the given scope, with a bound
    /// on the nesting of evaluations.
    #[verifier::rlimit(100)]
    #[verifier::spinoff_prover]
    pub fn eval_fuel(&self, scope: &mut Scope, fuel: u64) -> (r: Result<Type, Signal>)
        ensures
            (match r {
                Ok(v) => match self@.annotate {
                    Some(c) => spec_type_name(v@) == class_name(c),
                    None => true,
                },
                Err(_) => true,
            }),
            !(self@.expr is Expr) ==> final(scope)@ == old(scope)@,
            (match self@.expr {
                TypeV::Symbol(name) => res_view(r) == annot_check(
                    if old(scope)@.contains_key(name) {
                        old(scope)@[name]
                    } else {
                        TypeV::Symbol(name)
                    },
                    self@.annotate,
                ),
                TypeV::Expr(_) => true,
                other => res_view(r) == annot_check(other, self@.annotate),
            }),
            (match spec_eval(self@, old(scope)@, fuel as nat) {
                EvalOut::Done(res, sc) => res_view(r) == res && final(scope)@ == sc,
                EvalOut::Input => true,
            }),
        decreases fuel, 3int,
    {
        let ghost sc0 = scope@;
        let result: Type = if let Type::Expr(exprs) = &self.expr {
            proof {
                lemma_exprs_view_props(exprs@);
            }
            let ghost cv = exprs_view(exprs@);
            proof {
                assert(self@.expr == TypeV::Expr(cv));
            }
            if fuel == 0 {
                let mut msg: Vec<char> = Vec::new();
                push_str_chars("evaluation depth limit reached", &mut msg);
                proof {
                    assert(msg@ =~= depth_msg());
                    assert(spec_eval(self@, sc0, fuel as nat) == EvalOut::Done(
                        Err(SignalV::Fail(GradiaErrorV::Runtime(depth_msg()))),
                        sc0,
                    ));
                }
                return Err(Signal::Fail(GradiaError::Runtime(string_from_chars(&msg))));
            }
            let n = exprs.len();
            if n == 0 {
                let mut msg: Vec<char> = Vec::new();
                push_str_chars(
                    "first atom in expression should be function, but provided `"
                    ,
                    &mut msg,
                );
                push_str_chars("null", &mut msg);
                push_str_chars("` is not function", &mut msg);
                proof {
                    assert(msg@ =~= not_function_msg(TypeV::Null));
                    assert(spec_eval(self@, sc0, fuel as nat) == EvalOut::Done(
                        Err(SignalV::Fail(GradiaErrorV::Syntax(not_function_msg(TypeV::Null)))),
                        sc0,
                    ));
                }
                return Err(Signal::Fail(GradiaError::Syntax(string_from_chars(&msg))));
            }
            let ghost out0 = spec_eval(cv[0], sc0, (fuel - 1) as nat);
            let first = match (&exprs[0]).eval_fuel(scope, fuel - 1) {
                Ok(v) => v,
                Err(s) => {
                    proof {
                        if out0 is Done {
                            assert(out0 == EvalOut::Done(Err(s@), scope@));
                            assert(spec_eval(self@, sc0, fuel as nat) == EvalOut::Done(
                                Err(s@),
                                scope@,
                            ));
                        } else {
                            assert(spec_eval(self@, sc0, fuel as nat) == EvalOut::Input);
                        }
                    }
                    return Err(s);
                },
            };
            let ghost sc1 = scope@;
            let ghost firstv = first@;
            proof {
                if out0 is Done {
                    assert(out0 == EvalOut::Done(Ok(firstv), sc1));
                }
            }
            // the quote-like built-ins receive their remaining arguments as
            // data: an application becomes a list it can choose to run
            let data_mode: bool = match &first {
                Type::Function(Function::BuiltIn(Builtin::Lambda)) => true,
                Type::Function(Function::BuiltIn(Builtin::IfOp)) => true,
                Type::Function(Function::BuiltIn(Builtin::TryOp)) => true,
                Type::Function(Function::BuiltIn(Builtin::Define)) => n >= 2 && (matches!(
                    &exprs[1].expr,
                    Type::Expr(_) | Type::List(_)
                )),
                _ => false,
            };
            proof {
                assert(data_mode == quote_like(firstv, cv));
                assert(cv.skip(1).skip(0) =~= cv.skip(1));
            }
            let mut vals: Vec<Type> = Vec::new();
            proof {
                lemma_types_view_props(vals@);
                if !data_mode {
                    assert(types_view(vals@) =~= Seq::<TypeV>::empty());
                    match spec_eval_list(cv.skip(1), sc1, fuel as nat) {
                        EvalMany::Done(res2, s2) => {
                            match res2 {
                                Ok(rest) => {
                                    assert(types_view(vals@).add(rest) =~= rest);
                                },
                                Err(_) => {
                                },
                            }
                        },
                        EvalMany::Input => {
                        },
                    }
                }
            }
            let mut i: usize = 1;
            while i < n
                invariant
                    1 <= i <= n,
                    n == exprs@.len(),
                    fuel >= 1,
                    self@.expr is Expr,
                    sc0 == old(scope)@,
                    self@.expr == TypeV::Expr(cv),
                    out0 == spec_eval(cv[0], sc0, (fuel - 1) as nat),
                    out0 is Done ==> out0 == EvalOut::Done(Ok::<TypeV, SignalV>(firstv), sc1),
                    cv == exprs_view(exprs@),
                    cv.len() == n,
                    forall|j: int| 0 <= j < n ==> cv[j] == expr_view(#[trigger] exprs@[j]),
                    data_mode == quote_like(firstv, cv),
                    types_view(vals@).len() == i - 1,
                    vals@.len() == i - 1,
                    data_mode ==> scope@ == sc1,
                    data_mode ==> forall|j: int|
                        0 <= j < i - 1 ==> types_view(vals@)[j] == data_of(#[trigger] cv[j + 1]),
                    !data_mode ==> (spec_eval_list(cv.skip(1), sc1, fuel as nat)
                        == EvalMany::Input || spec_eval_list(cv.skip(1), sc1, fuel as nat) == (
                    match spec_eval_list(cv.skip(i as int), scope@, fuel as nat) {
                        EvalMany::Done(Ok(rest), s2) => EvalMany::Done(
                            Ok(types_view(vals@).add(rest)),
                            s2,
                        ),
                        other => other,
                    })),
                decreases n - i,
            {
                proof {
                    lemma_types_view_props(vals@);
                    assert(cv.skip(i as int)[0] == cv[i as int]);
                    assert(cv.skip(i as int).skip(1) =~= cv.skip(i as int + 1));
                }
                if data_mode {
                    let d = as_data(&exprs[i]);
                    let ghost old_vals = vals@;
                    vals.push(d);
                    proof {
                        lemma_types_view_props(old_vals);
                        lemma_types_view_props(vals@);
                        assert forall|j: int|
                            0 <= j < i implies types_view(vals@)[j] == (if j < i - 1 {
                            types_view(old_vals)[j]
                        } else {
                            data_of(cv[j + 1])
                        }) by {
                            if j < i - 1 {
                                assert(vals@[j] == old_vals[j]);
                            } else {
                                assert(type_view(vals@[j]) == d@);
                            }
                        }
                    }
                } else {
                    let ghost fs_pre = scope@;
                    match (&exprs[i]).eval_fuel(scope, fuel - 1) {
                        Ok(v) => {
                            let ghost old_vals = vals@;
                            vals.push(v);
                            proof {
                                lemma_types_view_props(old_vals);
                                lemma_types_view_props(vals@);
                                assert forall|j: int|
                                    0 <= j < types_view(vals@).len() implies types_view(vals@)[j]
                                    == types_view(old_vals).push(v@)[j] by {
                                    if j < old_vals.len() {
                                        assert(vals@[j] == old_vals[j]);
                                    } else {
                                        assert(type_view(vals@[j]) == v@);
                                    }
                                }
                                assert(types_view(vals@) =~= types_view(old_vals).push(v@));
                                assert(types_view(old_vals).add(
                                    seq![v@].add(
                                        match spec_eval_list(
                                            cv.skip(i as int + 1),
                                            scope@,
                                            fuel as nat,
                                        ) {
                                            EvalMany::Done(Ok(rest), _) => rest,
                                            _ => Seq::empty(),
                                        },
                                    ),
                                ) =~= types_view(vals@).add(
                                    match spec_eval_list(
                                        cv.skip(i as int + 1),
                                        scope@,
                                        fuel as nat,
                                    ) {
                                        EvalMany::Done(Ok(rest), _) => rest,
                                        _ => Seq::empty(),
                                    },
                                ));
                            }
                        },
                        Err(s) => {
                            proof {
                                let ghost elist = spec_eval_list(cv.skip(1), sc1, fuel as nat);
                                let ghost child = spec_eval(
                                    cv[i as int],
                                    fs_pre,
                                    (fuel - 1) as nat,
                                );
                                if out0 is Done && elist is Done {
                                    assert(child == EvalOut::Done(Err(s@), scope@));
                                    assert(spec_eval_list(cv.skip(i as int), fs_pre, fuel as nat)
                                        == EvalMany::Done(Err(s@), scope@));
                                    assert(elist == EvalMany::Done(Err(s@), scope@));
                                    assert(spec_eval(self@, sc0, fuel as nat) == EvalOut::Done(
                                        Err(s@),
                                        scope@,
                                    ));
                                }
                                if out0 is Done && !(elist is Done) {
                                    assert(spec_eval(self@, sc0, fuel as nat) == EvalOut::Input);
                                }
                                if !(out0 is Done) {
                                    assert(spec_eval(self@, sc0, fuel as nat) == EvalOut::Input);
                                }
                            }
                            return Err(s);
                        },
                    }
                }
                i = i + 1;
            }
            proof {
                assert(cv.skip(n as int).len() == 0);
                if data_mode {
                    lemma_types_view_props(vals@);
                    assert(types_view(vals@) =~= Seq::new(
                        (cv.len() - 1) as nat,
                        |j: int| data_of(cv[j + 1]),
                    ));
                } else {
                    assert(types_view(vals@).add(Seq::<TypeV>::empty()) =~= types_view(vals@));
                }
            }
            let ghost av = types_view(vals@);
            let ghost sc2 = scope@;
            let ghost elist = spec_eval_list(cv.skip(1), sc1, fuel as nat);
            // whether the mirror reaches the dispatch with these arguments
            let ghost live: bool = out0 is Done && (data_mode || elist == EvalMany::Done(
                Ok(av),
                sc2,
            ));
            proof {
                if out0 is Done {
                    if data_mode {
                        assert(av =~= Seq::new((cv.len() - 1) as nat, |j: int| data_of(cv[j + 1])));
                        assert(spec_eval(self@, sc0, fuel as nat) == spec_dispatch(
                            self@,
                            firstv,
                            av,
                            sc2,
                            fuel as nat,
                        ));
                    } else {
                        if elist is Done {
                            assert(elist == EvalMany::Done(Ok(av), sc2));
                            assert(spec_eval(self@, sc0, fuel as nat) == spec_dispatch(
                                self@,
                                firstv,
                                av,
                                sc2,
                                fuel as nat,
                            ));
                        } else {
                            assert(spec_eval(self@, sc0, fuel as nat) == EvalOut::Input);
                        }
                    }
                } else {
                    assert(spec_eval(self@, sc0, fuel as nat) == EvalOut::Input);
                }
            }
            match first {
                Type::Function(Function::BuiltIn(b)) => {
                    proof {
                        assert(firstv == TypeV::Function(FunctionV::BuiltIn(b)));
                    }
                    match apply_builtin(b, vals, scope, fuel) {
                        Ok(v) => {
                            proof {
                                if live {
                                    match spec_apply(b, av, sc2, fuel as nat) {
                                        EvalOut::Done(res, sc) => {
                                            assert(spec_eval(self@, sc0, fuel as nat)
                                                == EvalOut::Done(
                                                annot_check(v@, self@.annotate),
                                                scope@,
                                            ));
                                        },
                                        EvalOut::Input => {
                                            assert(spec_eval(self@, sc0, fuel as nat)
                                                == EvalOut::Input);
                                        },
                                    }
                                }
                            }
                            v
                        },
                        Err(s) => {
                            proof {
                                if live {
                                    match spec_apply(b, av, sc2, fuel as nat) {
                                        EvalOut::Done(res, sc) => {
                                            assert(spec_eval(self@, sc0, fuel as nat)
                                                == EvalOut::Done(Err(s@), scope@));
                                        },
                                        EvalOut::Input => {
                                            assert(spec_eval(self@, sc0, fuel as nat)
                                                == EvalOut::Input);
                                        },
                                    }
                                }
                            }
                            return Err(s);
                        },
                    }
                },
                Type::Function(Function::UserDefined(fparams, fcode)) => {
                    proof {
                        assert(firstv == TypeV::Function(
                            FunctionV::UserDefined(exprs_view(fparams@), types_view(fcode@)),
                        ));
                    }
                    match call_user(&fparams, &fcode, vals, scope, fuel) {
                        Ok(v) => {
                            proof {
                                if live {
                                    match spec_call_user(
                                        exprs_view(fparams@),
                                        types_view(fcode@),
                                        av,
                                        sc2,
                                        fuel as nat,
                                    ) {
                                        EvalOut::Done(res, sc) => {
                                            assert(spec_eval(self@, sc0, fuel as nat)
                                                == EvalOut::Done(
                                                annot_check(v@, self@.annotate),
                                                scope@,
                                            ));
                                        },
                                        EvalOut::Input => {
                                            assert(spec_eval(self@, sc0, fuel as nat)
                                                == EvalOut::Input);
                                        },
                                    }
                                }
                            }
                            v
                        },
                        Err(s) => {
                            proof {
                                if live {
                                    match spec_call_user(
                                        exprs_view(fparams@),
                                        types_view(fcode@),
                                        av,
                                        sc2,
                                        fuel as nat,
                                    ) {
                                        EvalOut::Done(res, sc) => {
                                            assert(spec_eval(self@, sc0, fuel as nat)
                                                == EvalOut::Done(Err(s@), scope@));
                                        },
                                        EvalOut::Input => {
                                            assert(spec_eval(self@, sc0, fuel as nat)
                                                == EvalOut::Input);
                                        },
                                    }
                                }
                            }
                            return Err(s);
                        },
                    }
                },
                other => {
                    let mut msg: Vec<char> = Vec::new();
                    push_str_chars("first atom in expression should be function, but provided `", &mut msg);
                    let pf = other.print_form();
                    push_str_chars(pf.as_str(), &mut msg);
                    push_str_chars("` is not function", &mut msg);
                    proof {
                        assert(msg@ =~= not_function_msg(firstv));
                        if live {
                            assert(spec_eval(self@, sc0, fuel as nat) == EvalOut::Done(
                                Err(SignalV::Fail(GradiaErrorV::Syntax(not_function_msg(firstv)))),
                                scope@,
                            ));
                        }
                    }
                    return Err(Signal::Fail(GradiaError::Syntax(string_from_chars(&msg))));
                },
            }
        } else if let Type::Symbol(name) = &self.expr {
            match scope.get(name) {
                Some(v) => v.clone(),
                None => self.expr.clone(),
            }
        } else {
            self.expr.clone()
        };
        check_annotation(result, &self.annotate)
    }

    /// Evaluates this annotated expression in the given scope.
    pub fn eval(&self, scope: &mut Scope) -> (r: Result<Type, Signal>)
        ensures
            (match r {
                Ok(v) => match self@.annotate {
                    Some(c) => spec_type_name(v@) == class_name(c),
                    None => true,
                },
                Err(_) => true,
            }),
            !(self@.expr is Expr) ==> final(scope)@ == old(scope)@,
            (match self@.expr {
                TypeV::Symbol(name) => res_view(r) == annot_check(
                    if old(scope)@.contains_key(name) {
                        old(scope)@[name]
                    } else {
                        TypeV::Symbol(name)
                    },
                    self@.annotate,
                ),
                TypeV::Expr(_) => true,
                other => res_view(r) == annot_check(other, self@.annotate),
            }),
            (match spec_eval(self@, old(scope)@, 1000000nat) {
                EvalOut::Done(res, sc) => res_view(r) == res && final(scope)@ == sc,
                EvalOut::Input => true,
            }),
    {
        self.eval_fuel(scope, 1000000)
    }
}

/// The `define` built-in: binds a name in the enclosing scope and returns the
/// bound value. A list first argument defines a function of that list's tail
/// as parameters and the remaining arguments as body; anything else binds its
/// string reading to the second argument.
pub fn builtin_define(params: Vec<Type>, scope: &mut Scope) -> (r: Result<Type, Signal>)
    ensures
        ({
            let tv = types_view(params@);
            if tv.len() < 2 {
                &&& res_view(r) == Err::<TypeV, SignalV>(
                    SignalV::Fail(GradiaErrorV::Function(tv.len() as int, 2)),
                )
                &&& final(scope)@ == old(scope)@
            } else {
                match tv[0] {
                    TypeV::List(largs) => {
                        if largs.len() == 0 {
                            &&& res_view(r) == Err::<TypeV, SignalV>(
                                SignalV::Fail(
                                    GradiaErrorV::Runtime("the defined name is missing"@),
                                ),
                            )
                            &&& final(scope)@ == old(scope)@
                        } else {
                            let value = TypeV::Function(
                                FunctionV::UserDefined(largs.skip(1), tv.skip(1)),
                            );
                            &&& res_view(r) == Ok::<TypeV, SignalV>(value)
                            &&& final(scope)@ == old(scope)@.insert(
                                spec_get_string(largs[0].expr),
                                value,
                            )
                        }
                    },
                    _ => {
                        let value = tv[1];
                        &&& res_view(r) == Ok::<TypeV, SignalV>(value)
                        &&& final(scope)@ == old(scope)@.insert(spec_get_string(tv[0]), value)
                    },
                }
            }
        }),
        res_view(r) == spec_define(types_view(params@), old(scope)@).0,
        final(scope)@ == spec_define(types_view(params@), old(scope)@).1,
{
    proof {
        lemma_types_view_props(params@);
    }
    if params.len() < 2 {
        return Err(Signal::Fail(GradiaError::Function(params.len(), 2)));
    }
    if let Type::List(largs) = &params[0] {
        proof {
            lemma_exprs_view_props(largs@);
        }
        if largs.len() == 0 {
            let mut msg: Vec<char> = Vec::new();
            push_str_chars("the defined name is missing", &mut msg);
            return Err(Signal::Fail(GradiaError::Runtime(string_from_chars(&msg))));
        }
        let name = largs[0].expr.get_string();
        let fparams = tail_exprs(largs, 1);
        let body = tail_types(&params, 1);
        let value = Type::Function(Function::UserDefined(fparams, body));
        let copy = value.clone();
        scope.insert(name, copy);
        Ok(value)
    } else {
        let name = params[0].get_string();
        let value = (&params[1]).clone();
        let copy = value.clone();
        scope.insert(name, copy);
        Ok(value)
    }
}

/// The `reduce` built-in: folds the second argument over the first's list
/// reading, seeded with the first element, in a snapshot of the scope. An
/// empty list fails; a one-element list returns that element without calling
/// the function.
#[verifier::rlimit(50)]
pub fn builtin_reduce(params: &Vec<Type>, scope: &Scope, fuel: u64) -> (r: Result<Type, Signal>)
    requires
        fuel >= 1,
    ensures
        ({
            let tv = types_view(params@);
            &&& tv.len() != 2 ==> res_view(r) == Err::<TypeV, SignalV>(
                SignalV::Fail(GradiaErrorV::Function(tv.len() as int, 2)),
            )
            &&& (tv.len() == 2 && spec_get_list(tv[0]).len() == 0) ==> res_view(r) == Err::<
                TypeV,
                SignalV,
            >(SignalV::Fail(GradiaErrorV::Runtime("passed list is empty"@)))
            &&& (tv.len() == 2 && spec_get_list(tv[0]).len() == 1) ==> res_view(r) == Ok::<
                TypeV,
                SignalV,
            >(spec_get_list(tv[0])[0].expr)
        }),
        (match spec_apply(Builtin::Reduce, types_view(params@), scope@, fuel as nat) {
            EvalOut::Done(res, sc) => res_view(r) == res && sc == scope@,
            EvalOut::Input => true,
        }),
    decreases fuel, 1int,
{
    proof {
        lemma_types_view_props(params@);
    }
    let ghost tv = types_view(params@);
    if params.len() != 2 {
        return Err(Signal::Fail(GradiaError::Function(params.len(), 2)));
    }
    let mut list = params[0].get_list();
    let ghost l0 = list@;
    let ghost lv = exprs_view(list@);
    proof {
        lemma_exprs_view_props(l0);
    }
    if list.len() == 0 {
        let mut msg: Vec<char> = Vec::new();
        push_str_chars("passed list is empty", &mut msg);
        return Err(Signal::Fail(GradiaError::Runtime(string_from_chars(&msg))));
    }
    let ghost full = spec_reduce_loop(lv[0].expr, tv[1], lv.skip(1), scope@, fuel as nat);
    let head = list.remove(0);
    let mut result: Type = head.expr;
    let mut call_scope = scope.clone();
    let n = list.len();
    let ghost lw = exprs_view(list@);
    proof {
        assert(result@ == lv[0].expr);
        lemma_exprs_view_props(list@);
        assert(list@ =~= l0.skip(1));
        assert forall|j: int| 0 <= j < lw.len() implies lw[j] == lv.skip(1)[j] by {
            assert(list@[j] == l0[j + 1]);
        }
        assert(lw =~= lv.skip(1));
        assert(lw.skip(0) =~= lw);
    }
    let mut i: usize = 0;
    while i < n
        invariant
            0 <= i <= n,
            n == list@.len(),
            fuel >= 1,
            params@.len() == 2,
            tv == types_view(params@),
            tv.len() == 2,
            tv[1] == type_view(params@[1]),
            lv == spec_get_list(tv[0]),
            lv.len() == n + 1,
            lw == exprs_view(list@),
            lw.len() == n,
            forall|j: int| 0 <= j < n ==> lw[j] == expr_view(#[trigger] list@[j]),
            full == spec_reduce_loop(lv[0].expr, tv[1], lv.skip(1), scope@, fuel as nat),
            full == EvalOut::Input || full == spec_reduce_loop(
                result@,
                tv[1],
                lw.skip(i as int),
                call_scope@,
                fuel as nat,
            ),
            n == 0 ==> result@ == spec_get_list(types_view(params@)[0])[0].expr,
        decreases n - i,
    {
        proof {
            assert(lw.skip(i as int)[0] == lw[i as int]);
            assert(lw.skip(i as int).skip(1) =~= lw.skip(i as int + 1));
        }
        let ghost accv = result@;
        let func = (&params[1]).clone();
        let elem = (&list[i]).clone();
        let mut call: Vec<Expr> = Vec::new();
        call.push(Expr { expr: func, annotate: None });
        call.push(Expr { expr: result, annotate: None });
        call.push(elem);
        let e = Expr { expr: Type::Expr(call), annotate: None };
        proof {
            lemma_exprs_view_props(call@);
            assert(call@.len() == 3);
            assert(expr_view(call@[0]) == (ExprV { expr: tv[1], annotate: None }));
            assert(expr_view(call@[1]) == (ExprV { expr: accv, annotate: None }));
            assert(expr_view(call@[2]) == lw[i as int]);
            assert(exprs_view(call@) =~= seq![
                ExprV { expr: tv[1], annotate: None },
                ExprV { expr: accv, annotate: None },
                lw[i as int],
            ]);
        }
        match e.eval_fuel(&mut call_scope, fuel - 1) {
            Ok(v) => {
                result = v;
            },
            Err(s) => {
                return Err(s);
            },
        }
        i = i + 1;
    }
    proof {
        assert(lw.skip(n as int).len() == 0);
    }
    Ok(result)
}

/// The `try` built-in: evaluates the first operand (a list runs as an
/// expression); a failure there evaluates the second the same way. A request
/// to end the process is not caught.
pub fn builtin_try(params: &Vec<Type>, scope: &mut Scope, fuel: u64) -> (r: Result<Type, Signal>)
    requires
        fuel >= 1,
    ensures
        ({
            let tv = types_view(params@);
            &&& tv.len() == 0 ==> res_view(r) == Err::<TypeV, SignalV>(
                SignalV::Fail(GradiaErrorV::Function(0, 2)),
            )
            &&& (tv.len() == 2 && plain_cond(tv[0])) ==> res_view(r) == Ok::<TypeV, SignalV>(
                tv[0],
            )
        }),
        (match spec_apply(Builtin::TryOp, types_view(params@), old(scope)@, fuel as nat) {
            EvalOut::Done(res, sc) => res_view(r) == res && final(scope)@ == sc,
            EvalOut::Input => true,
        }),
    decreases fuel, 1int,
{
    proof {
        lemma_types_view_props(params@);
    }
    if params.len() == 0 {
        return Err(Signal::Fail(GradiaError::Function(0, 2)));
    }
    let tried: Result<Type, Signal> = eval_datum(&params[0], scope, fuel);
    if params.len() != 2 {
        return Err(Signal::Fail(GradiaError::Function(params.len(), 2)));
    }
    match tried {
        Ok(v) => Ok(v),
        Err(Signal::Exit(c)) => Err(Signal::Exit(c)),
        Err(Signal::Fail(_)) => eval_datum(&params[1], scope, fuel),
    }
}

/// The `if` built-in: the condition and the branches arrive as data; the
/// condition is run first, then only the chosen branch. The two-argument form
/// yields null on a false condition.
pub fn builtin_if(params: &Vec<Type>, scope: &mut Scope, fuel: u64) -> (r: Result<Type, Signal>)
    requires
        fuel >= 1,
    ensures
        ({
            let tv = types_view(params@);
            &&& !(tv.len() == 2 || tv.len() == 3) ==> res_view(r) == Err::<TypeV, SignalV>(
                SignalV::Fail(GradiaErrorV::Function(tv.len() as int, 3)),
            )
            &&& (tv.len() == 3 && plain_cond(tv[0]) && spec_get_bool(tv[0]) && plain_cond(
                tv[1],
            )) ==> res_view(r) == Ok::<TypeV, SignalV>(tv[1])
            &&& (tv.len() == 3 && plain_cond(tv[0]) && !spec_get_bool(tv[0]) && plain_cond(
                tv[2],
            )) ==> res_view(r) == Ok::<TypeV, SignalV>(tv[2])
            &&& (tv.len() == 2 && plain_cond(tv[0]) && spec_get_bool(tv[0]) && plain_cond(
                tv[1],
            )) ==> res_view(r) == Ok::<TypeV, SignalV>(tv[1])
            &&& (tv.len() == 2 && plain_cond(tv[0]) && !spec_get_bool(tv[0])) ==> res_view(r)
                == Ok::<TypeV, SignalV>(TypeV::Null)
        }),
        (match spec_apply(Builtin::IfOp, types_view(params@), old(scope)@, fuel as nat) {
            EvalOut::Done(res, sc) => res_view(r) == res && final(scope)@ == sc,
            EvalOut::Input => true,
        }),
    decreases fuel, 1int,
{
    proof {
        lemma_types_view_props(params@);
    }
    let n = params.len();
    if !(n == 2 || n == 3) {
        return Err(Signal::Fail(GradiaError::Function(n, 3)));
    }
    let cond_value = match eval_datum(&params[0], scope, fuel) {
        Ok(v) => v,
        Err(s) => {
            return Err(s);
        },
    };
    if cond_value.get_bool() {
        eval_datum(&params[1], scope, fuel)
    } else if n == 3 {
        eval_datum(&params[2], scope, fuel)
    } else {
        Ok(Type::Null)
    }
}

/// A value that stands for itself when an operand of `if` or `try` is run:
/// neither a list, a symbol, nor an application.
pub open spec fn plain_cond(t: TypeV) -> bool {
    !(t is List) && !(t is Symbol) && !(t is Expr)
}

/// The data form of a raw argument to a quote-like built-in: an application
/// becomes a list, anything else is kept as parsed.
fn as_data(e: &Expr) -> (r: Type)
    ensures
        r@ == (match e@.expr {
            TypeV::Expr(items) => TypeV::List(items),
            other => other,
        }),
{
    if let Type::Expr(items) = &e.expr {
        Type::List(clone_exprs(items))
    } else {
        e.expr.clone()
    }
}

/// Runs one operand of `if` or `try`: a list runs as an expression, a symbol
/// is looked up, and any other value is returned unchanged.
fn eval_datum(d: &Type, scope: &mut Scope, fuel: u64) -> (r: Result<Type, Signal>)
    requires
        fuel >= 1,
    ensures
        plain_cond(d@) ==> res_view(r) == Ok::<TypeV, SignalV>(d@),
        (match spec_eval(as_run(d@), old(scope)@, (fuel - 1) as nat) {
            EvalOut::Done(res, sc) => res_view(r) == res && final(scope)@ == sc,
            EvalOut::Input => true,
        }),
    decreases fuel, 0int,
{
    if let Type::List(es) = d {
        let e = Expr { expr: Type::Expr(clone_exprs(es)), annotate: None };
        proof {
            assert(e@ =~= as_run(d@));
        }
        e.eval_fuel(scope, fuel - 1)
    } else {
        let e = Expr { expr: d.clone(), annotate: None };
        proof {
            assert(e@ =~= as_run(d@));
        }
        e.eval_fuel(scope, fuel - 1)
    }
}

/// Applies a built-in to its arguments: evaluated values, or data for the
/// quote-like built-ins.
#[verifier::rlimit(100)]
#[verifier::spinoff_prover]
fn apply_builtin(b: Builtin, params: Vec<Type>, scope: &mut Scope, fuel: u64) -> (r: Result<
    Type,
    Signal,
>)
    requires
        fuel >= 1,
    ensures
        (match spec_apply(b, types_view(params@), old(scope)@, fuel as nat) {
            EvalOut::Done(res, sc) => res_view(r) == res && final(scope)@ == sc,
            EvalOut::Input => true,
        }),
    decreases fuel, 2int,
{
    proof {
        lemma_types_view_props(params@);
    }
    let ghost tv = types_view(params@);
    let r = match b {
        Builtin::Add => lift(builtin_arith(ArithOp::Plus, &params)),
        Builtin::Sub => lift(builtin_arith(ArithOp::Minus, &params)),
        Builtin::Mul => lift(builtin_arith(ArithOp::Times, &params)),
        Builtin::Div => lift(builtin_arith(ArithOp::Over, &params)),
        Builtin::Rem => lift(builtin_arith(ArithOp::Modulo, &params)),
        Builtin::Pow => lift(builtin_pow(&params)),
        Builtin::Concat => lift(builtin_concat(&params)),
        Builtin::EqOp => lift(builtin_equality(false, &params)),
        Builtin::NeOp => lift(builtin_equality(true, &params)),
        Builtin::GtOp => lift(builtin_cmp(CmpOp::Greater, &params)),
        Builtin::GeOp => lift(builtin_cmp(CmpOp::GreaterEq, &params)),
        Builtin::LtOp => lift(builtin_cmp(CmpOp::Less, &params)),
        Builtin::LeOp => lift(builtin_cmp(CmpOp::LessEq, &params)),
        Builtin::AndOp => lift(builtin_logic(false, &params)),
        Builtin::OrOp => lift(builtin_logic(true, &params)),
        Builtin::NotOp => lift(builtin_not(&params)),
        Builtin::Cast => lift(builtin_cast(&params)),
        Builtin::TypeOf => lift(builtin_type_of(&params)),
        Builtin::Car => lift(builtin_car(&params)),
        Builtin::Cdr => lift(builtin_cdr(&params)),
        Builtin::Range => lift(builtin_range(&params)),
        Builtin::Reverse => lift(builtin_reverse(&params)),
        Builtin::Len => lift(builtin_len(&params)),
        Builtin::Repeat => lift(builtin_repeat(&params)),
        Builtin::Join => lift(builtin_join(&params)),
        Builtin::Split => lift(builtin_split(&params)),
        Builtin::ErrorOp => lift(builtin_error(&params)),
        Builtin::Lambda => lift(builtin_lambda(&params)),
        Builtin::Define => builtin_define(params, scope),
        Builtin::Reduce => builtin_reduce(&params, scope, fuel),
        Builtin::TryOp => builtin_try(&params, scope, fuel),
        Builtin::IfOp => builtin_if(&params, scope, fuel),
        Builtin::Cond => builtin_cond(&params, scope, fuel),
        Builtin::EvalOp => builtin_eval(&params, scope, fuel),
        Builtin::MapOp => builtin_map(&params, scope, fuel),
        Builtin::Filter => builtin_filter(&params, scope, fuel),
        Builtin::Print => builtin_print(&params),
        Builtin::PrintSlot => builtin_print_slot(&params, scope),
        Builtin::DebugOp => builtin_debug(&params),
        Builtin::Input => builtin_input(&params),
        Builtin::Exit => builtin_exit(&params),
        Builtin::Identity => builtin_identity(&params),
    };
    proof {
        match b {
            Builtin::Len => {
                if tv.len() == 1 {
                    let p = (crate::builtins::len_as_int(spec_get_list(tv[0]).len()), 1int);
                    Fraction::lemma_from_pair(p);
                    match &r {
                        Ok(v) => {
                            match v@ {
                                TypeV::Number(f) => {
                                    Fraction::lemma_parts_determine(Fraction::from_pair(p), f);
                                },
                                _ => {
                                },
                            }
                        },
                        _ => {
                        },
                    }
                }
            },
            Builtin::Cast => {
                if tv.len() == 2 {
                    match &r {
                        Ok(v) => {
                            match v@ {
                                TypeV::Number(f) => {
                                    Fraction::lemma_parts_in_range(f);
                                    Fraction::lemma_from_pair((f.num(), f.den()));
                                    Fraction::lemma_parts_determine(
                                        Fraction::from_pair((f.num(), f.den())),
                                        f,
                                    );
                                },
                                _ => {
                                },
                            }
                        },
                        _ => {
                        },
                    }
                }
            },
            Builtin::Range => {
                if 1 <= tv.len() <= 3 {
                    let args = crate::builtins::range_args(tv);
                    if !Fraction::spec_lt(args.0, args.1) {
                        crate::builtins::lemma_range_descending(
                            args.0,
                            args.1,
                            args.2,
                            crate::builtins::RANGE_LIMIT as nat,
                        );
                    }
                }
            },
            Builtin::Split => {
                if tv.len() == 2 {
                    let parts = crate::builtins::split_parts(
                        spec_get_string(tv[0]),
                        spec_get_string(tv[1]),
                    );
                    match &r {
                        Ok(v) => {
                            match v@ {
                                TypeV::List(es) => {
                                    assert(es =~= Seq::new(
                                        parts.len(),
                                        |i: int| ExprV {
                                            expr: TypeV::String(parts[i]),
                                            annotate: None,
                                        },
                                    ));
                                },
                                _ => {
                                },
                            }
                        },
                        _ => {
                        },
                    }
                }
            },
            _ => {
            },
        }
        match b {
            Builtin::Add => {
                assert(spec_apply(b, tv, old(scope)@, fuel as nat) == EvalOut::Done(
                    res_view(r),
                    scope@,
                ));
            },
            Builtin::Sub => {
                assert(spec_apply(b, tv, old(scope)@, fuel as nat) == EvalOut::Done(
                    res_view(r),
                    scope@,
                ));
            },
            Builtin::Mul => {
                assert(spec_apply(b, tv, old(scope)@, fuel as nat) == EvalOut::Done(
                    res_view(r),
                    scope@,
                ));
            },
            Builtin::Div => {
                assert(spec_apply(b, tv, old(scope)@, fuel as nat) == EvalOut::Done(
                    res_view(r),
                    scope@,
                ));
            },
            Builtin::Rem => {
                assert(spec_apply(b, tv, old(scope)@, fuel as nat) == EvalOut::Done(
                    res_view(r),
                    scope@,
                ));
            },
            Builtin::Pow => {
                assert(spec_apply(b, tv, old(scope)@, fuel as nat) == EvalOut::Done(
                    res_view(r),
                    scope@,
                ));
            },
            Builtin::Concat => {
                assert(spec_apply(b, tv, old(scope)@, fuel as nat) == EvalOut::Done(
                    res_view(r),
                    scope@,
                ));
            },
            Builtin::EqOp => {
                assert(spec_apply(b, tv, old(scope)@, fuel as nat) == EvalOut::Done(
                    res_view(r),
                    scope@,
                ));
            },
            Builtin::NeOp => {
                assert(spec_apply(b, tv, old(scope)@, fuel as nat) == EvalOut::Done(
                    res_view(r),
                    scope@,
                ));
            },
            Builtin::GtOp => {
                assert(spec_apply(b, tv, old(scope)@, fuel as nat) == EvalOut::Done(
                    res_view(r),
                    scope@,
                ));
            },
            Builtin::GeOp => {
                assert(spec_apply(b, tv, old(scope)@, fuel as nat) == EvalOut::Done(
                    res_view(r),
                    scope@,
                ));
            },
            Builtin::LtOp => {
                assert(spec_apply(b, tv, old(scope)@, fuel as nat) == EvalOut::Done(
                    res_view(r),
                    scope@,
                ));
            },
            Builtin::LeOp => {
                assert(spec_apply(b, tv, old(scope)@, fuel as nat) == EvalOut::Done(
                    res_view(r),
                    scope@,
                ));
            },
            Builtin::AndOp => {
                assert(spec_apply(b, tv, old(scope)@, fuel as nat) == EvalOut::Done(
                    res_view(r),
                    scope@,
                ));
            },
            Builtin::OrOp => {
                assert(spec_apply(b, tv, old(scope)@, fuel as nat) == EvalOut::Done(
                    res_view(r),
                    scope@,
                ));
            },
            Builtin::NotOp => {
                assert(spec_apply(b, tv, old(scope)@, fuel as nat) == EvalOut::Done(
                    res_view(r),
                    scope@,
                ));
            },
            Builtin::Cast => {
                assert(spec_apply(b, tv, old(scope)@, fuel as nat) == EvalOut::Done(
                    res_view(r),
                    scope@,
                ));
            },
            Builtin::TypeOf => {
                assert(spec_apply(b, tv, old(scope)@, fuel as nat) == EvalOut::Done(
                    res_view(r),
                    scope@,
                ));
            },
            Builtin::Car => {
                assert(spec_apply(b, tv, old(scope)@, fuel as nat) == EvalOut::Done(
                    res_view(r),
                    scope@,
                ));
            },
            Builtin::Cdr => {
                assert(spec_apply(b, tv, old(scope)@, fuel as nat) == EvalOut::Done(
                    res_view(r),
                    scope@,
                ));
            },
            Builtin::Reverse => {
                assert(spec_apply(b, tv, old(scope)@, fuel as nat) == EvalOut::Done(
                    res_view(r),
                    scope@,
                ));
            },
            Builtin::Repeat => {
                assert(spec_apply(b, tv, old(scope)@, fuel as nat) == EvalOut::Done(
                    res_view(r),
                    scope@,
                ));
            },
            Builtin::Join => {
                assert(spec_apply(b, tv, old(scope)@, fuel as nat) == EvalOut::Done(
                    res_view(r),
                    scope@,
                ));
            },
            Builtin::ErrorOp => {
                assert(spec_apply(b, tv, old(scope)@, fuel as nat) == EvalOut::Done(
                    res_view(r),
                    scope@,
                ));
            },
            Builtin::Lambda => {
                assert(spec_apply(b, tv, old(scope)@, fuel as nat) == EvalOut::Done(
                    res_view(r),
                    scope@,
                ));
            },
            Builtin::Print => {
                assert(spec_apply(b, tv, old(scope)@, fuel as nat) == EvalOut::Done(
                    res_view(r),
                    scope@,
                ));
            },
            Builtin::PrintSlot => {
                assert(spec_apply(b, tv, old(scope)@, fuel as nat) == EvalOut::Done(
                    res_view(r),
                    scope@,
                ));
            },
            Builtin::DebugOp => {
                assert(spec_apply(b, tv, old(scope)@, fuel as nat) == EvalOut::Done(
                    res_view(r),
                    scope@,
                ));
            },
            Builtin::Exit => {
                assert(spec_apply(b, tv, old(scope)@, fuel as nat) == EvalOut::Done(
                    res_view(r),
                    scope@,
                ));
            },
            Builtin::Identity => {
                assert(spec_apply(b, tv, old(scope)@, fuel as nat) == EvalOut::Done(
                    res_view(r),
                    scope@,
                ));
            },
            Builtin::Define => {
                assert(spec_apply(b, tv, old(scope)@, fuel as nat) == EvalOut::Done(
                    res_view(r),
                    scope@,
                ));
            },
            _ => {
            },
        }
    }
    r
}

/// Wraps a pure built-in's failure as a catchable signal.
fn lift(r: Result<Type, GradiaError>) -> (out: Result<Type, Signal>)
    ensures
        out == (match r {
            Ok(v) => Ok::<Type, Signal>(v),
            Err(e) => Err::<Type, Signal>(Signal::Fail(e)),
        }),
{
    match r {
        Ok(v) => Ok(v),
        Err(e) => Err(Signal::Fail(e)),
    }
}

/// The `cond` built-in: each clause is a list of a test and a body; the first
/// clause whose test reads true runs its body (a list runs as an expression);
/// with no true test the result is null.
#[verifier::rlimit(50)]
fn builtin_cond(params: &Vec<Type>, scope: &mut Scope, fuel: u64) -> (r: Result<Type, Signal>)
    requires
        fuel >= 1,
    ensures
        types_view(params@).len() == 0 ==> res_view(r) == Ok::<TypeV, SignalV>(TypeV::Null),
        (match spec_apply(Builtin::Cond, types_view(params@), old(scope)@, fuel as nat) {
            EvalOut::Done(res, sc) => res_view(r) == res && final(scope)@ == sc,
            EvalOut::Input => true,
        }),
    decreases fuel, 1int,
{
    proof {
        lemma_types_view_props(params@);
    }
    let ghost tv = types_view(params@);
    let ghost full = spec_cond_loop(tv, old(scope)@, fuel as nat);
    let n = params.len();
    let mut i: usize = 0;
    proof {
        assert(tv.skip(0) =~= tv);
    }
    while i < n
        invariant
            0 <= i <= n,
            n == params@.len(),
            fuel >= 1,
            tv == types_view(params@),
            tv.len() == n,
            forall|j: int| 0 <= j < n ==> tv[j] == type_view(#[trigger] params@[j]),
            full == spec_cond_loop(tv, old(scope)@, fuel as nat),
            full == EvalOut::Input || full == spec_cond_loop(tv.skip(i as int), scope@, fuel as nat),
        decreases n - i,
    {
        proof {
            assert(tv.skip(i as int)[0] == tv[i as int]);
            assert(tv.skip(i as int).skip(1) =~= tv.skip(i as int + 1));
        }
        let clause = params[i].get_list();
        proof {
            lemma_exprs_view_props(clause@);
        }
        if clause.len() >= 1 {
            let test = (&clause[0]).clone();
            let tested = match test.eval_fuel(scope, fuel - 1) {
                Ok(v) => v,
                Err(s) => {
                    return Err(s);
                },
            };
            if tested.get_bool() {
                if clause.len() >= 2 {
                    let body = (&clause[1]).clone();
                    let code = match body.eval_fuel(scope, fuel - 1) {
                        Ok(v) => v,
                        Err(s) => {
                            return Err(s);
                        },
                    };
                    return eval_datum(&code, scope, fuel);
                } else {
                    return Ok(Type::Null);
                }
            }
        } else {
            return Ok(Type::Null);
        }
        i = i + 1;
    }
    proof {
        assert(tv.skip(n as int).len() == 0);
    }
    Ok(Type::Null)
}

/// The `eval` built-in: each argument's list reading runs as an expression in
/// the caller's scope; the last result wins.
#[verifier::rlimit(50)]
fn builtin_eval(params: &Vec<Type>, scope: &mut Scope, fuel: u64) -> (r: Result<Type, Signal>)
    requires
        fuel >= 1,
    ensures
        types_view(params@).len() == 0 ==> res_view(r) == Ok::<TypeV, SignalV>(TypeV::Null),
        (match spec_apply(Builtin::EvalOp, types_view(params@), old(scope)@, fuel as nat) {
            EvalOut::Done(res, sc) => res_view(r) == res && final(scope)@ == sc,
            EvalOut::Input => true,
        }),
    decreases fuel, 1int,
{
    proof {
        lemma_types_view_props(params@);
    }
    let ghost tv = types_view(params@);
    let ghost full = spec_evalop_loop(tv, TypeV::Null, old(scope)@, fuel as nat);
    let n = params.len();
    let mut result: Type = Type::Null;
    let mut i: usize = 0;
    proof {
        assert(tv.skip(0) =~= tv);
    }
    while i < n
        invariant
            0 <= i <= n,
            n == params@.len(),
            fuel >= 1,
            tv == types_view(params@),
            tv.len() == n,
            forall|j: int| 0 <= j < n ==> tv[j] == type_view(#[trigger] params@[j]),
            full == spec_evalop_loop(tv, TypeV::Null, old(scope)@, fuel as nat),
            full == EvalOut::Input || full == spec_evalop_loop(
                tv.skip(i as int),
                result@,
                scope@,
                fuel as nat,
            ),
            n == 0 ==> result@ == TypeV::Null,
        decreases n - i,
    {
        proof {
            assert(tv.skip(i as int)[0] == tv[i as int]);
            assert(tv.skip(i as int).skip(1) =~= tv.skip(i as int + 1));
        }
        let items = params[i].get_list();
        let e = Expr { expr: Type::Expr(items), annotate: None };
        proof {
            assert(e@ =~= (ExprV {
                expr: TypeV::Expr(spec_get_list(tv[i as int])),
                annotate: None,
            }));
        }
        match e.eval_fuel(scope, fuel - 1) {
            Ok(v) => {
                result = v;
            },
            Err(s) => {
                return Err(s);
            },
        }
        i = i + 1;
    }
    proof {
        assert(tv.skip(n as int).len() == 0);
    }
    Ok(result)
}

/// The `map` built-in: applies the second argument to each element of the
/// first's list reading, collecting the results.
#[verifier::rlimit(50)]
fn builtin_map(params: &Vec<Type>, scope: &mut Scope, fuel: u64) -> (r: Result<Type, Signal>)
    requires
        fuel >= 1,
    ensures
        ({
            let tv = types_view(params@);
            &&& tv.len() != 2 ==> res_view(r) == Err::<TypeV, SignalV>(
                SignalV::Fail(GradiaErrorV::Function(tv.len() as int, 2)),
            )
            &&& (match r {
                Ok(v) => v@ is List,
                Err(_) => true,
            })
        }),
        (match spec_apply(Builtin::MapOp, types_view(params@), old(scope)@, fuel as nat) {
            EvalOut::Done(res, sc) => res_view(r) == res && final(scope)@ == sc,
            EvalOut::Input => true,
        }),
    decreases fuel, 1int,
{
    proof {
        lemma_types_view_props(params@);
    }
    let ghost tv = types_view(params@);
    if params.len() != 2 {
        return Err(Signal::Fail(GradiaError::Function(params.len(), 2)));
    }
    let ghost full = spec_map_loop(tv[1], spec_get_list(tv[0]), Seq::empty(), old(scope)@, fuel as nat);
    let list = params[0].get_list();
    proof {
        lemma_exprs_view_props(list@);
    }
    let ghost lw = exprs_view(list@);
    let n = list.len();
    let mut out: Vec<Expr> = Vec::new();
    let mut i: usize = 0;
    proof {
        assert(lw.skip(0) =~= lw);
        assert(exprs_view(out@) =~= Seq::<ExprV>::empty());
    }
    while i < n
        invariant
            0 <= i <= n,
            n == list@.len(),
            fuel >= 1,
            params@.len() == 2,
            tv == types_view(params@),
            tv.len() == 2,
            tv[1] == type_view(params@[1]),
            lw == exprs_view(list@),
            lw.len() == n,
            forall|j: int| 0 <= j < n ==> lw[j] == expr_view(#[trigger] list@[j]),
            full == spec_map_loop(tv[1], spec_get_list(tv[0]), Seq::empty(), old(scope)@, fuel as nat),
            full == EvalOut::Input || full == spec_map_loop(
                tv[1],
                lw.skip(i as int),
                exprs_view(out@),
                scope@,
                fuel as nat,
            ),
        decreases n - i,
    {
        proof {
            assert(lw.skip(i as int)[0] == lw[i as int]);
            assert(lw.skip(i as int).skip(1) =~= lw.skip(i as int + 1));
        }
        let func = (&params[1]).clone();
        let elem = (&list[i]).clone();
        let mut call: Vec<Expr> = Vec::new();
        call.push(Expr { expr: func, annotate: None });
        call.push(elem);
        let e = Expr { expr: Type::Expr(call), annotate: None };
        proof {
            lemma_exprs_view_props(call@);
            assert(call@.len() == 2);
            assert(expr_view(call@[0]) == (ExprV { expr: tv[1], annotate: None }));
            assert(expr_view(call@[1]) == lw[i as int]);
            assert(exprs_view(call@) =~= seq![ExprV { expr: tv[1], annotate: None }, lw[i as int]]);
        }
        match e.eval_fuel(scope, fuel - 1) {
            Ok(v) => {
                let ghost old_out = out@;
                out.push(Expr { expr: v, annotate: None });
                proof {
                    lemma_exprs_view_props(old_out);
                    lemma_exprs_view_props(out@);
                    assert forall|j: int|
                        0 <= j < exprs_view(out@).len() implies exprs_view(out@)[j] == exprs_view(
                        old_out,
                    ).push(ExprV { expr: v@, annotate: None })[j] by {
                        if j < old_out.len() {
                            assert(out@[j] == old_out[j]);
                        } else {
                            assert(expr_view(out@[j]) == (ExprV { expr: v@, annotate: None }));
                        }
                    }
                    assert(exprs_view(out@) =~= exprs_view(old_out).push(
                        ExprV { expr: v@, annotate: None },
                    ));
                }
            },
            Err(s) => {
                return Err(s);
            },
        }
        i = i + 1;
    }
    proof {
        assert(lw.skip(n as int).len() == 0);
    }
    Ok(Type::List(out))
}

/// The `filter` built-in: keeps the elements of the first argument's list
/// reading on which the second argument reads true.
#[verifier::rlimit(50)]
fn builtin_filter(params: &Vec<Type>, scope: &mut Scope, fuel: u64) -> (r: Result<Type, Signal>)
    requires
        fuel >= 1,
    ensures
        ({
            let tv = types_view(params@);
            &&& tv.len() != 2 ==> res_view(r) == Err::<TypeV, SignalV>(
                SignalV::Fail(GradiaErrorV::Function(tv.len() as int, 2)),
            )
            &&& (match r {
                Ok(v) => v@ is List,
                Err(_) => true,
            })
        }),
        (match spec_apply(Builtin::Filter, types_view(params@), old(scope)@, fuel as nat) {
            EvalOut::Done(res, sc) => res_view(r) == res && final(scope)@ == sc,
            EvalOut::Input => true,
        }),
    decreases fuel, 1int,
{
    proof {
        lemma_types_view_props(params@);
    }
    let ghost tv = types_view(params@);
    if params.len() != 2 {
        return Err(Signal::Fail(GradiaError::Function(params.len(), 2)));
    }
    let ghost full = spec_filter_loop(tv[1], spec_get_list(tv[0]), Seq::empty(), old(scope)@, fuel as nat);
    let list = params[0].get_list();
    proof {
        lemma_exprs_view_props(list@);
    }
    let ghost lw = exprs_view(list@);
    let n = list.len();
    let mut out: Vec<Expr> = Vec::new();
    let mut i: usize = 0;
    proof {
        assert(lw.skip(0) =~= lw);
        assert(exprs_view(out@) =~= Seq::<ExprV>::empty());
    }
    while i < n
        invariant
            0 <= i <= n,
            n == list@.len(),
            fuel >= 1,
            params@.len() == 2,
            tv == types_view(params@),
            tv.len() == 2,
            tv[1] == type_view(params@[1]),
            lw == exprs_view(list@),
            lw.len() == n,
            forall|j: int| 0 <= j < n ==> lw[j] == expr_view(#[trigger] list@[j]),
            full == spec_filter_loop(tv[1], spec_get_list(tv[0]), Seq::empty(), old(scope)@, fuel as nat),
            full == EvalOut::Input || full == spec_filter_loop(
                tv[1],
                lw.skip(i as int),
                exprs_view(out@),
                scope@,
                fuel as nat,
            ),
        decreases n - i,
    {
        proof {
            assert(lw.skip(i as int)[0] == lw[i as int]);
            assert(lw.skip(i as int).skip(1) =~= lw.skip(i as int + 1));
        }
        let func = (&params[1]).clone();
        let elem = (&list[i]).clone();
        let mut call: Vec<Expr> = Vec::new();
        call.push(Expr { expr: func, annotate: None });
        call.push(elem);
        let e = Expr { expr: Type::Expr(call), annotate: None };
        proof {
            lemma_exprs_view_props(call@);
            assert(call@.len() == 2);
            assert(expr_view(call@[0]) == (ExprV { expr: tv[1], annotate: None }));
            assert(expr_view(call@[1]) == lw[i as int]);
            assert(exprs_view(call@) =~= seq![ExprV { expr: tv[1], annotate: None }, lw[i as int]]);
        }
        match e.eval_fuel(scope, fuel - 1) {
            Ok(v) => {
                if v.get_bool() {
                    let kept = (&list[i]).clone();
                    let ghost old_out = out@;
                    out.push(kept);
                    proof {
                        lemma_exprs_view_props(old_out);
                        lemma_exprs_view_props(out@);
                        assert forall|j: int|
                            0 <= j < exprs_view(out@).len() implies exprs_view(out@)[j]
                            == exprs_view(old_out).push(lw[i as int])[j] by {
                            if j < old_out.len() {
                                assert(out@[j] == old_out[j]);
                            } else {
                                assert(expr_view(out@[j]) == lw[i as int]);
                            }
                        }
                        assert(exprs_view(out@) =~= exprs_view(old_out).push(lw[i as int]));
                    }
                }
            },
            Err(s) => {
                return Err(s);
            },
        }
        i = i + 1;
    }
    proof {
        assert(lw.skip(n as int).len() == 0);
    }
    Ok(Type::List(out))
}

/// The `print` built-in: writes the concatenated string readings to standard
/// output and returns null.
fn builtin_print(params: &Vec<Type>) -> (r: Result<Type, Signal>)
    ensures
        res_view(r) == Ok::<TypeV, SignalV>(TypeV::Null),
{
    match builtin_concat(params) {
        Ok(Type::String(s)) => {
            crate::io::write_stdout(s.as_str());
            Ok(Type::Null)
        },
        _ => Ok(Type::Null),
    }
}

/// The `print` built-in as an embedder installs it: appends the concatenated
/// string readings to the `stdout` slot in the scope and returns null.
pub fn builtin_print_slot(params: &Vec<Type>, scope: &mut Scope) -> (r: Result<Type, Signal>)
    ensures
        res_view(r) == Ok::<TypeV, SignalV>(TypeV::Null),
        final(scope)@ == old(scope)@.insert(
            "stdout"@,
            TypeV::String(
                (if old(scope)@.contains_key("stdout"@) {
                    spec_get_string(old(scope)@["stdout"@])
                } else {
                    Seq::empty()
                }).add(concat_strs(types_view(params@))),
            ),
        ),
{
    let key = String::from_str("stdout");
    let mut text: Vec<char> = Vec::new();
    match scope.get(&key) {
        Some(v) => {
            let prev = v.get_string();
            push_str_chars(prev.as_str(), &mut text);
        },
        None => {
        },
    }
    match builtin_concat(params) {
        Ok(Type::String(s)) => {
            push_str_chars(s.as_str(), &mut text);
        },
        _ => {
        },
    }
    proof {
        assert(text@ =~= (if old(scope)@.contains_key("stdout"@) {
            spec_get_string(old(scope)@["stdout"@])
        } else {
            Seq::<char>::empty()
        }).add(concat_strs(types_view(params@))));
    }
    scope.insert(key, Type::String(string_from_chars(&text)));
    Ok(Type::Null)
}

/// The `debug` built-in: writes each argument's printable form on its own
/// line, prefixed, and returns null.
fn builtin_debug(params: &Vec<Type>) -> (r: Result<Type, Signal>)
    ensures
        res_view(r) == Ok::<TypeV, SignalV>(TypeV::Null),
{
    let n = params.len();
    let mut i: usize = 0;
    while i < n
        invariant
            0 <= i <= n,
            n == params@.len(),
        decreases n - i,
    {
        let mut line: Vec<char> = Vec::new();
        push_str_chars("Debug: ", &mut line);
        let pf = params[i].print_form();
        push_str_chars(pf.as_str(), &mut line);
        push_str_chars("\n", &mut line);
        let text = string_from_chars(&line);
        crate::io::write_stdout(text.as_str());
        i = i + 1;
    }
    Ok(Type::Null)
}

/// The `input` built-in: writes the optional prompt, reads a line from
/// standard input and returns it with surrounding whitespace removed; a read
/// failure is a runtime error.
fn builtin_input(params: &Vec<Type>) -> (r: Result<Type, Signal>)
    ensures
        types_view(params@).len() > 1 ==> res_view(r) == Err::<TypeV, SignalV>(
            SignalV::Fail(GradiaErrorV::Function(types_view(params@).len() as int, 1)),
        ),
        types_view(params@).len() <= 1 ==> (match r {
            Ok(v) => exists|s: Seq<char>| v@ == TypeV::String(crate::text::spec_trim(s)),
            Err(e) => e@ == SignalV::Fail(GradiaErrorV::Runtime("reading line was fault"@)),
        }),
{
    proof {
        lemma_types_view_props(params@);
    }
    if params.len() > 1 {
        return Err(Signal::Fail(GradiaError::Function(params.len(), 1)));
    }
    if params.len() == 1 {
        let prompt = params[0].get_string();
        crate::io::write_stdout(prompt.as_str());
    }
    match crate::io::read_line_stdin() {
        Some(line) => {
            let cs = chars_of_str(line.as_str());
            let t = trim_chars(&cs);
            proof {
                assert(t@ == crate::text::spec_trim(line@));
            }
            Ok(Type::String(string_from_chars(&t)))
        },
        None => {
            let mut msg: Vec<char> = Vec::new();
            push_str_chars("reading line was fault", &mut msg);
            Err(Signal::Fail(GradiaError::Runtime(string_from_chars(&msg))))
        },
    }
}

/// The `exit` built-in: requests that the host end the process with the
/// given code, zero when none is given.
fn builtin_exit(params: &Vec<Type>) -> (r: Result<Type, Signal>)
    ensures
        ({
            let tv = types_view(params@);
            res_view(r) == Err::<TypeV, SignalV>(
                SignalV::Exit(
                    if tv.len() == 0 {
                        0
                    } else {
                        Fraction::trunc_div(
                            crate::builtins::as_frac(tv[0]).num(),
                            crate::builtins::as_frac(tv[0]).den(),
                        )
                    },
                ),
            )
        }),
{
    proof {
        lemma_types_view_props(params@);
    }
    if params.len() == 0 {
        return Err(Signal::Exit(0));
    }
    let f = frac_of(&params[0]);
    Err(Signal::Exit(f.trunc()))
}

/// The identity a `function` annotation coerces to: returns its first
/// argument.
fn builtin_identity(params: &Vec<Type>) -> (r: Result<Type, Signal>)
    ensures
        ({
            let tv = types_view(params@);
            match r {
                Ok(v) => tv.len() >= 1 && v@ == tv[0],
                Err(e) => tv.len() == 0 && e@ == SignalV::Fail(GradiaErrorV::Function(0, 1)),
            }
        }),
{
    proof {
        lemma_types_view_props(params@);
    }
    if params.len() == 0 {
        return Err(Signal::Fail(GradiaError::Function(0, 1)));
    }
    Ok((&params[0]).clone())
}

/// The bindings a fresh scope starts with: every built-in under its surface
/// name, and the three character constants.
pub open spec fn initial_scope() -> Map<Seq<char>, TypeV> {
    Map::empty()
        .insert("+"@, TypeV::Function(FunctionV::BuiltIn(Builtin::Add)))
        .insert("-"@, TypeV::Function(FunctionV::BuiltIn(Builtin::Sub)))
        .insert("*"@, TypeV::Function(FunctionV::BuiltIn(Builtin::Mul)))
        .insert("/"@, TypeV::Function(FunctionV::BuiltIn(Builtin::Div)))
        .insert("%"@, TypeV::Function(FunctionV::BuiltIn(Builtin::Rem)))
        .insert("^"@, TypeV::Function(FunctionV::BuiltIn(Builtin::Pow)))
        .insert("concat"@, TypeV::Function(FunctionV::BuiltIn(Builtin::Concat)))
        .insert("print"@, TypeV::Function(FunctionV::BuiltIn(Builtin::Print)))
        .insert("debug"@, TypeV::Function(FunctionV::BuiltIn(Builtin::DebugOp)))
        .insert("input"@, TypeV::Function(FunctionV::BuiltIn(Builtin::Input)))
        .insert("="@, TypeV::Function(FunctionV::BuiltIn(Builtin::EqOp)))
        .insert("!="@, TypeV::Function(FunctionV::BuiltIn(Builtin::NeOp)))
        .insert(">"@, TypeV::Function(FunctionV::BuiltIn(Builtin::GtOp)))
        .insert(">="@, TypeV::Function(FunctionV::BuiltIn(Builtin::GeOp)))
        .insert("<"@, TypeV::Function(FunctionV::BuiltIn(Builtin::LtOp)))
        .insert("<="@, TypeV::Function(FunctionV::BuiltIn(Builtin::LeOp)))
        .insert("&"@, TypeV::Function(FunctionV::BuiltIn(Builtin::AndOp)))
        .insert("|"@, TypeV::Function(FunctionV::BuiltIn(Builtin::OrOp)))
        .insert("!"@, TypeV::Function(FunctionV::BuiltIn(Builtin::NotOp)))
        .insert("cast"@, TypeV::Function(FunctionV::BuiltIn(Builtin::Cast)))
        .insert("type"@, TypeV::Function(FunctionV::BuiltIn(Builtin::TypeOf)))
        .insert("eval"@, TypeV::Function(FunctionV::BuiltIn(Builtin::EvalOp)))
        .insert("define"@, TypeV::Function(FunctionV::BuiltIn(Builtin::Define)))
        .insert("lambda"@, TypeV::Function(FunctionV::BuiltIn(Builtin::Lambda)))
        .insert("if"@, TypeV::Function(FunctionV::BuiltIn(Builtin::IfOp)))
        .insert("cond"@, TypeV::Function(FunctionV::BuiltIn(Builtin::Cond)))
        .insert("car"@, TypeV::Function(FunctionV::BuiltIn(Builtin::Car)))
        .insert("cdr"@, TypeV::Function(FunctionV::BuiltIn(Builtin::Cdr)))
        .insert("range"@, TypeV::Function(FunctionV::BuiltIn(Builtin::Range)))
        .insert("map"@, TypeV::Function(FunctionV::BuiltIn(Builtin::MapOp)))
        .insert("filter"@, TypeV::Function(FunctionV::BuiltIn(Builtin::Filter)))
        .insert("reduce"@, TypeV::Function(FunctionV::BuiltIn(Builtin::Reduce)))
        .insert("reverse"@, TypeV::Function(FunctionV::BuiltIn(Builtin::Reverse)))
        .insert("len"@, TypeV::Function(FunctionV::BuiltIn(Builtin::Len)))
        .insert("repeat"@, TypeV::Function(FunctionV::BuiltIn(Builtin::Repeat)))
        .insert("join"@, TypeV::Function(FunctionV::BuiltIn(Builtin::Join)))
        .insert("split"@, TypeV::Function(FunctionV::BuiltIn(Builtin::Split)))
        .insert("error"@, TypeV::Function(FunctionV::BuiltIn(Builtin::ErrorOp)))
        .insert("try"@, TypeV::Function(FunctionV::BuiltIn(Builtin::TryOp)))
        .insert("exit"@, TypeV::Function(FunctionV::BuiltIn(Builtin::Exit)))
        .insert("new-line"@, TypeV::String("\n"@))
        .insert("double-quote"@, TypeV::String("\""@))
        .insert("tab"@, TypeV::String("\t"@))
}

/// Builds the standard scope of built-ins and constants.
pub fn builtin_function() -> (r: Scope)
    ensures
        r@ == initial_scope(),
{
    let mut s = Scope::new();
    s.insert(String::from_str("+"), Type::Function(Function::BuiltIn(Builtin::Add)));
    s.insert(String::from_str("-"), Type::Function(Function::BuiltIn(Builtin::Sub)));
    s.insert(String::from_str("*"), Type::Function(Function::BuiltIn(Builtin::Mul)));
    s.insert(String::from_str("/"), Type::Function(Function::BuiltIn(Builtin::Div)));
    s.insert(String::from_str("%"), Type::Function(Function::BuiltIn(Builtin::Rem)));
    s.insert(String::from_str("^"), Type::Function(Function::BuiltIn(Builtin::Pow)));
    s.insert(String::from_str("concat"), Type::Function(Function::BuiltIn(Builtin::Concat)));
    s.insert(String::from_str("print"), Type::Function(Function::BuiltIn(Builtin::Print)));
    s.insert(String::from_str("debug"), Type::Function(Function::BuiltIn(Builtin::DebugOp)));
    s.insert(String::from_str("input"), Type::Function(Function::BuiltIn(Builtin::Input)));
    s.insert(String::from_str("="), Type::Function(Function::BuiltIn(Builtin::EqOp)));
    s.insert(String::from_str("!="), Type::Function(Function::BuiltIn(Builtin::NeOp)));
    s.insert(String::from_str(">"), Type::Function(Function::BuiltIn(Builtin::GtOp)));
    s.insert(String::from_str(">="), Type::Function(Function::BuiltIn(Builtin::GeOp)));
    s.insert(String::from_str("<"), Type::Function(Function::BuiltIn(Builtin::LtOp)));
    s.insert(String::from_str("<="), Type::Function(Function::BuiltIn(Builtin::LeOp)));
    s.insert(String::from_str("&"), Type::Function(Function::BuiltIn(Builtin::AndOp)));
    s.insert(String::from_str("|"), Type::Function(Function::BuiltIn(Builtin::OrOp)));
    s.insert(String::from_str("!"), Type::Function(Function::BuiltIn(Builtin::NotOp)));
    s.insert(String::from_str("cast"), Type::Function(Function::BuiltIn(Builtin::Cast)));
    s.insert(String::from_str("type"), Type::Function(Function::BuiltIn(Builtin::TypeOf)));
    s.insert(String::from_str("eval"), Type::Function(Function::BuiltIn(Builtin::EvalOp)));
    s.insert(String::from_str("define"), Type::Function(Function::BuiltIn(Builtin::Define)));
    s.insert(String::from_str("lambda"), Type::Function(Function::BuiltIn(Builtin::Lambda)));
    s.insert(String::from_str("if"), Type::Function(Function::BuiltIn(Builtin::IfOp)));
    s.insert(String::from_str("cond"), Type::Function(Function::BuiltIn(Builtin::Cond)));
    s.insert(String::from_str("car"), Type::Function(Function::BuiltIn(Builtin::Car)));
    s.insert(String::from_str("cdr"), Type::Function(Function::BuiltIn(Builtin::Cdr)));
    s.insert(String::from_str("range"), Type::Function(Function::BuiltIn(Builtin::Range)));
    s.insert(String::from_str("map"), Type::Function(Function::BuiltIn(Builtin::MapOp)));
    s.insert(String::from_str("filter"), Type::Function(Function::BuiltIn(Builtin::Filter)));
    s.insert(String::from_str("reduce"), Type::Function(Function::BuiltIn(Builtin::Reduce)));
    s.insert(String::from_str("reverse"), Type::Function(Function::BuiltIn(Builtin::Reverse)));
    s.insert(String::from_str("len"), Type::Function(Function::BuiltIn(Builtin::Len)));
    s.insert(String::from_str("repeat"), Type::Function(Function::BuiltIn(Builtin::Repeat)));
    s.insert(String::from_str("join"), Type::Function(Function::BuiltIn(Builtin::Join)));
    s.insert(String::from_str("split"), Type::Function(Function::BuiltIn(Builtin::Split)));
    s.insert(String::from_str("error"), Type::Function(Function::BuiltIn(Builtin::ErrorOp)));
    s.insert(String::from_str("try"), Type::Function(Function::BuiltIn(Builtin::TryOp)));
    s.insert(String::from_str("exit"), Type::Function(Function::BuiltIn(Builtin::Exit)));
    s.insert(String::from_str("new-line"), Type::String(String::from_str("\n")));
    s.insert(String::from_str("double-quote"), Type::String(String::from_str("\"")));
    s.insert(String::from_str("tab"), Type::String(String::from_str("\t")));
    s
}

} // verus!
