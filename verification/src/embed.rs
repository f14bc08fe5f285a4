//! The embedding surface: a persistent interpreter whose `print` collects
//! into a `stdout` slot of the scope instead of the host's output, so an
//! embedder can run code and read what it printed.

use vstd::prelude::*;
use vstd::string::*;
use crate::types::{Builtin, Function, GradiaErrorV, Type, TypeV, FunctionV};
use crate::coerce::spec_get_string;
use crate::scope::Scope;
use crate::eval::{Signal, SignalV, EvalOut, spec_eval, builtin_function, initial_scope};
use crate::parser::{
    tokenize, parse, spec_tokenize, spec_parse_token, token_pair_view, token_pairs_view,
    lemma_token_pairs_view_props, TokResult,
};
use crate::print::{err_message, print_type};

verus! {

/// A persistent interpreter with a captured output slot.
pub struct Gradia {
    scope: Scope,
}

impl View for Gradia {
    type V = Map<Seq<char>, TypeV>;

    closed spec fn view(&self) -> Map<Seq<char>, TypeV> {
        self.scope@
    }
}

/// How a run of top-level forms ends: the rendering of the last outcome and
/// the scope after the run — or the mark that it reached the host's input.
#[verifier::ext_equal]
pub enum SessionOut {
    Done(Seq<char>, Map<Seq<char>, TypeV>),
    Input,
}

/// Running top-level forms in order: each token parses and runs in the
/// accumulated scope. The rendering is the last value's printable form, or
/// the last failure's message; a form that cannot parse leaves its message
/// and the run goes on; a request to end the process stops the run with the
/// rendering gathered before it.
pub open spec fn spec_session(
    toks: Seq<(Seq<char>, Option<Seq<char>>)>,
    acc: Seq<char>,
    scope: Map<Seq<char>, TypeV>,
) -> SessionOut
    decreases toks.len(),
{
    if toks.len() == 0 {
        SessionOut::Done(acc, scope)
    } else {
        match spec_parse_token(toks[0], toks[0].0.len() + 1) {
            Err(e) => spec_session(toks.skip(1), err_message(e), scope),
            Ok(ast) => match spec_eval(ast, scope, 1000000nat) {
                EvalOut::Input => SessionOut::Input,
                EvalOut::Done(Ok(v), sc) => spec_session(toks.skip(1), print_type(v), sc),
                EvalOut::Done(Err(SignalV::Fail(err)), sc) => spec_session(
                    toks.skip(1),
                    err_message(err),
                    sc,
                ),
                EvalOut::Done(Err(SignalV::Exit(_)), sc) => SessionOut::Done(acc, sc),
            },
        }
    }
}

/// The scope a fresh embedded interpreter starts with.
pub open spec fn fresh_scope() -> Map<Seq<char>, TypeV> {
    initial_scope().insert("stdout"@, TypeV::String(Seq::empty())).insert(
        "print"@,
        TypeV::Function(FunctionV::BuiltIn(Builtin::PrintSlot)),
    )
}

/// The text a scope's `stdout` slot holds.
pub open spec fn stdout_of(sc: Map<Seq<char>, TypeV>) -> Seq<char> {
    if sc.contains_key("stdout"@) {
        spec_get_string(sc["stdout"@])
    } else {
        Seq::empty()
    }
}

impl Gradia {
    /// A fresh interpreter: the standard scope, an empty `stdout` slot, and
    /// `print` rebound to append to that slot.
    pub fn new() -> (r: Gradia)
        ensures
            r@ == fresh_scope(),
    {
        let mut scope = builtin_function();
        scope.insert(String::from_str("stdout"), Type::String(String::new()));
        scope.insert(
            String::from_str("print"),
            Type::Function(Function::BuiltIn(Builtin::PrintSlot)),
        );
        Gradia { scope }
    }

    /// Runs code for its effects: the scope ends as the run leaves it; the
    /// last value is discarded.
    pub fn run(&mut self, code: String)
        ensures
            match spec_tokenize(code@) {
                TokResult::Tokens(ts) => match spec_session(ts, Seq::empty(), old(self)@) {
                    SessionOut::Done(_, sc) => final(self)@ == sc,
                    SessionOut::Input => true,
                },
                _ => final(self)@ == old(self)@,
            },
    {
        self.eval(code);
    }

    /// Runs code and renders the outcome: the last top-level value's
    /// printable form, or the text of the error that stopped that form. The
    /// scope persists across calls, exactly as the run leaves it.
    pub fn eval(&mut self, code: String) -> (r: String)
        ensures
            match spec_tokenize(code@) {
                TokResult::ExtraClose => r@ == err_message(
                    GradiaErrorV::Syntax("there's duplicate end of the parentheses"@),
                ) && final(self)@ == old(self)@,
                TokResult::UnclosedQuote => r@ == err_message(
                    GradiaErrorV::Syntax("there's not end of the quote"@),
                ) && final(self)@ == old(self)@,
                TokResult::UnclosedParen => r@ == err_message(
                    GradiaErrorV::Syntax("there's not end of the parentheses"@),
                ) && final(self)@ == old(self)@,
                TokResult::Tokens(ts) => match spec_session(ts, Seq::empty(), old(self)@) {
                    SessionOut::Done(out, sc) => r@ == out && final(self)@ == sc,
                    SessionOut::Input => true,
                },
            },
    {
        let mut result = String::new();
        match tokenize(code) {
            Err(e) => {
                return e.message();
            },
            Ok(lines) => {
                proof {
                    lemma_token_pairs_view_props(lines@);
                }
                let ghost tw = token_pairs_view(lines@);
                let ghost full = spec_session(tw, Seq::empty(), old(self)@);
                let n = lines.len();
                let mut i: usize = 0;
                proof {
                    assert(tw.skip(0) =~= tw);
                    assert(result@ =~= Seq::<char>::empty());
                }
                while i < n
                    invariant
                        0 <= i <= n,
                        n == lines@.len(),
                        spec_tokenize(code@) == TokResult::Tokens(tw),
                        tw == token_pairs_view(lines@),
                        tw.len() == n,
                        forall|j: int|
                            0 <= j < n ==> tw[j] == token_pair_view(#[trigger] lines@[j]),
                        full == spec_session(tw, Seq::empty(), old(self)@),
                        full == SessionOut::Input || full == spec_session(
                            tw.skip(i as int),
                            result@,
                            self.scope@,
                        ),
                    decreases n - i,
                {
                    proof {
                        assert(tw.skip(i as int)[0] == tw[i as int]);
                        assert(tw.skip(i as int).skip(1) =~= tw.skip(i as int + 1));
                    }
                    let line = &lines[i];
                    let text = line.0.clone();
                    let ann: Option<String> = match &line.1 {
                        Some(a) => Some(a.clone()),
                        None => None,
                    };
                    proof {
                        assert(token_pair_view((text, ann)) == tw[i as int]);
                    }
                    match parse((text, ann)) {
                        Ok(ast) => {
                            match ast.eval(&mut self.scope) {
                                Ok(value) => {
                                    result = value.print_form();
                                },
                                Err(Signal::Fail(err)) => {
                                    result = err.message();
                                },
                                Err(Signal::Exit(_)) => {
                                    return result;
                                },
                            }
                        },
                        Err(err) => {
                            result = err.message();
                        },
                    }
                    i = i + 1;
                }
                proof {
                    assert(tw.skip(n as int).len() == 0);
                }
            },
        }
        result
    }

    /// The text collected in the `stdout` slot.
    pub fn get_stdout(&self) -> (r: String)
        ensures
            self@.contains_key("stdout"@) ==> r@ == spec_get_string(self@["stdout"@]),
            !self@.contains_key("stdout"@) ==> r@ == Seq::<char>::empty(),
    {
        let key = String::from_str("stdout");
        match self.scope.get(&key) {
            Some(v) => v.get_string(),
            None => String::new(),
        }
    }
}

/// Runs a piece of code in a fresh interpreter and returns what it printed:
/// the text the run left in the `stdout` slot.
pub fn run_gradia(code: String) -> (r: String)
    ensures
        match spec_tokenize(code@) {
            TokResult::Tokens(ts) => match spec_session(ts, Seq::empty(), fresh_scope()) {
                SessionOut::Done(_, sc) => r@ == stdout_of(sc),
                SessionOut::Input => true,
            },
            _ => r@ == stdout_of(fresh_scope()),
        },
{
    let mut g = Gradia::new();
    g.run(code);
    g.get_stdout()
}

} // verus!
