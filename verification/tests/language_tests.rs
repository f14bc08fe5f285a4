use gradia::embed::Gradia;
use gradia::parser::{tokenize, parse};
use gradia::eval::{builtin_function, Signal};
use gradia::types::Type;

/// Runs code in a fresh interpreter: the rendered last value and what it
/// printed.
fn run(code: &str) -> (String, String) {
    let mut g = Gradia::new();
    let result = g.eval(String::from(code));
    (result, g.get_stdout())
}

fn result_of(code: &str) -> String {
    run(code).0
}

fn printed(code: &str) -> String {
    run(code).1
}

#[test]
fn tokenizer_splits_on_separators() {
    let toks = tokenize(String::from("(+ 1 2) b\u{3000}c")).unwrap();
    assert_eq!(toks.len(), 3);
    assert_eq!(toks[0].0, "(+ 1 2)");
    assert_eq!(toks[1].0, "b");
    assert_eq!(toks[2].0, "c");
}

#[test]
fn tokenizer_reads_annotations() {
    let toks = tokenize(String::from("a:number (b c):list d")).unwrap();
    assert_eq!(toks.len(), 3);
    assert_eq!(toks[0], (String::from("a"), Some(String::from("number"))));
    assert_eq!(toks[1], (String::from("(b c)"), Some(String::from("list"))));
    assert_eq!(toks[2], (String::from("d"), None));
}

#[test]
fn tokenizer_rejects_extra_close() {
    let e = tokenize(String::from("(+ 1 2))")).unwrap_err();
    assert_eq!(
        e.message(),
        "Syntax Error! there's duplicate end of the parentheses"
    );
}

#[test]
fn tokenizer_rejects_unclosed_quote() {
    let e = tokenize(String::from("\"abc")).unwrap_err();
    assert_eq!(e.message(), "Syntax Error! there's not end of the quote");
}

#[test]
fn tokenizer_rejects_unclosed_paren() {
    let e = tokenize(String::from("((+ 1 2)")).unwrap_err();
    assert_eq!(
        e.message(),
        "Syntax Error! there's not end of the parentheses"
    );
}

#[test]
fn parser_classifies_atoms() {
    assert_eq!(parse((String::from("42"), None)).unwrap().print_form(), "42");
    assert_eq!(
        parse((String::from("3.14"), None)).unwrap().print_form(),
        "157/50"
    );
    assert_eq!(
        parse((String::from("3/6"), None)).unwrap().print_form(),
        "1/2"
    );
    assert_eq!(
        parse((String::from("true"), None)).unwrap().print_form(),
        "true"
    );
    assert_eq!(
        parse((String::from("null"), None)).unwrap().print_form(),
        "null"
    );
    assert_eq!(
        parse((String::from("\"hi there\""), None)).unwrap().print_form(),
        "\"hi there\""
    );
    assert_eq!(
        parse((String::from("'sym"), None)).unwrap().print_form(),
        "sym"
    );
    assert_eq!(parse((String::from("abc"), None)).unwrap().print_form(), "abc");
}

#[test]
fn parser_builds_collections() {
    assert_eq!(
        parse((String::from("(+ 1 2)"), None)).unwrap().print_form(),
        "(+ 1 2)"
    );
    assert_eq!(
        parse((String::from("'(1 \"a\" true)"), None)).unwrap().print_form(),
        "'(1 \"a\" true)"
    );
    assert_eq!(
        parse((String::from("x"), Some(String::from("number")))).unwrap().print_form(),
        "x:number"
    );
}

#[test]
fn parser_rejects_unknown_annotation() {
    let e = parse((String::from("x"), Some(String::from("wibble")))).unwrap_err();
    assert_eq!(e.message(), "Syntax Error! unknown type annotation `wibble`");
}

#[test]
fn printed_forms_read_back_unchanged() {
    for text in ["42", "-5/7", "157/50", "true", "false", "null", "\"a b\"", "abc",
        "'(1 2 (three \"4\") '(5))", "(+ 1 (* 2 3))"] {
        let once = parse((String::from(text), None)).unwrap().print_form();
        let twice = parse((once.clone(), None)).unwrap().print_form();
        assert_eq!(once, twice);
    }
}

#[test]
fn direct_evaluation_with_the_standard_scope() {
    let mut scope = builtin_function();
    let toks = tokenize(String::from("(+ 1 2 3)")).unwrap();
    let ast = parse(toks[0].clone()).unwrap();
    match ast.eval(&mut scope) {
        Ok(v) => assert_eq!(v.print_form(), "6"),
        Err(_) => panic!("evaluation failed"),
    }
}

#[test]
fn exit_is_a_signal_not_an_error() {
    let mut scope = builtin_function();
    let toks = tokenize(String::from("(exit 3)")).unwrap();
    let ast = parse(toks[0].clone()).unwrap();
    match ast.eval(&mut scope) {
        Err(Signal::Exit(code)) => assert_eq!(code, 3),
        _ => panic!("expected an exit request"),
    }
}

#[test]
fn print_collects_into_the_stdout_slot() {
    assert_eq!(printed("(print (+ 1 2 3))"), "6");
}

#[test]
fn decimal_literals_rationalize() {
    assert_eq!(printed("(define pi 3.14) (print pi)"), "157/50");
}

#[test]
fn user_functions_check_annotations() {
    assert_eq!(printed("(define (sq x:number) (* x x)) (print (sq 5))"), "25");
    let r = result_of("(define (sq x:number) (* x x)) (sq \"a\")");
    assert_eq!(
        r,
        "Type Error! the result value `\"a\"` is different to expected type `number`"
    );
}

#[test]
fn map_lambda_and_join() {
    assert_eq!(
        printed("(print (join (map '(1 2 3) (lambda '(n) (* n 10))) \", \"))"),
        "10, 20, 30"
    );
}

#[test]
fn branches_run_only_when_chosen() {
    assert_eq!(printed("(if (< 2 3) (print \"yes\") (print \"no\"))"), "yes");
    assert_eq!(printed("(if (< 3 2) (print \"yes\") (print \"no\"))"), "no");
    assert_eq!(printed("(if (< 2 3) '(print \"yes\") '(print \"no\"))"), "yes");
    assert_eq!(result_of("(if false \"a\")"), "null");
    assert_eq!(result_of("(define b false) (if b \"a\" \"z\")"), "\"z\"");
}

#[test]
fn try_catches_failures_only() {
    assert_eq!(result_of("(try (error \"boom\") \"caught\")"), "\"caught\"");
    assert_eq!(result_of("(try 42 \"caught\")"), "42");
}

#[test]
fn definitions_stay_in_the_enclosing_scope() {
    assert_eq!(result_of("(define x 5) x"), "5");
    // a definition made inside a function body is gone after the call
    assert_eq!(result_of("(define (f) (define y 1) y) (f) y"), "y");
}

#[test]
fn equality_compares_printable_forms() {
    assert_eq!(result_of("(= 5 5)"), "true");
    assert_eq!(result_of("(!= 5 5)"), "false");
    assert_eq!(result_of("(= \"a\" \"a\" \"a\")"), "true");
    assert_eq!(result_of("(= 1/2 2/4)"), "true");
    assert_eq!(result_of("(= '(1 2) '(1 2))"), "true");
    assert_eq!(result_of("(!= 1 2)"), "true");
}

#[test]
fn both_less_than_builtins_are_strict() {
    assert_eq!(result_of("(< 2 3)"), "true");
    assert_eq!(result_of("(<= 2 3)"), "true");
    assert_eq!(result_of("(< 2 2)"), "false");
    assert_eq!(result_of("(<= 2 2)"), "false");
    assert_eq!(result_of("(> 3 2)"), "true");
    assert_eq!(result_of("(>= 2 2)"), "true");
}

#[test]
fn reduce_needs_a_non_empty_list() {
    assert_eq!(result_of("(reduce '() +)"), "Runtime Error! passed list is empty");
    assert_eq!(result_of("(reduce '(7) +)"), "7");
    assert_eq!(result_of("(reduce '(1 2 3 4) +)"), "10");
}

#[test]
fn range_is_half_open_and_checks_its_step() {
    assert_eq!(result_of("(range 3)"), "'(0 1 2)");
    assert_eq!(result_of("(range 2 5)"), "'(2 3 4)");
    assert_eq!(result_of("(range 0 2 1/2)"), "'(0 1/2 1 3/2)");
    assert_eq!(result_of("(range 5 2)"), "'()");
    assert_eq!(result_of("(range 5 2 0)"), "'()");
    assert_eq!(result_of("(range 1 2 0)"), "Runtime Error! range step must be positive");
}

#[test]
fn list_primitives() {
    assert_eq!(result_of("(car '(1 2 3))"), "1");
    assert_eq!(result_of("(cdr '(1 2 3))"), "'(2 3)");
    assert_eq!(result_of("(car '())"), "null");
    assert_eq!(result_of("(cdr '())"), "'()");
    assert_eq!(result_of("(reverse '(1 2 3))"), "'(3 2 1)");
    assert_eq!(result_of("(len '(1 2 3))"), "3");
    assert_eq!(result_of("(filter '(1 2 3 4) (lambda '(n) (< n 3)))"), "'(1 2)");
}

#[test]
fn string_primitives() {
    assert_eq!(result_of("(concat \"a\" \"b\" 3)"), "\"ab3\"");
    assert_eq!(result_of("(repeat \"ab\" 3)"), "\"ababab\"");
    assert_eq!(result_of("(split \"a,b,c\" \",\")"), "'(\"a\" \"b\" \"c\")");
    assert_eq!(result_of("(join '(1 2) \"-\")"), "\"1-2\"");
}

#[test]
fn coercion_builtins() {
    assert_eq!(result_of("(cast \"5\" \"number\")"), "5");
    assert_eq!(result_of("(cast 0 \"bool\")"), "false");
    assert_eq!(result_of("(cast 7 \"string\")"), "\"7\"");
    assert_eq!(result_of("(cast 1 \"wibble\")"), "Runtime Error! unknown type name `wibble`");
    assert_eq!(result_of("(type 5)"), "\"number\"");
    assert_eq!(result_of("(type \"x\")"), "\"string\"");
    assert_eq!(result_of("(type true)"), "\"bool\"");
    assert_eq!(result_of("(type null)"), "\"null\"");
    assert_eq!(result_of("(type '(1))"), "\"list\"");
    assert_eq!(result_of("(type 'x)"), "\"symbol\"");
    assert_eq!(result_of("(type +)"), "\"function\"");
}

#[test]
fn arithmetic_folds() {
    assert_eq!(result_of("(+ 1 2 3)"), "6");
    assert_eq!(result_of("(- 10 1 2)"), "7");
    assert_eq!(result_of("(- 4)"), "-4");
    assert_eq!(result_of("(* 2 3 4)"), "24");
    assert_eq!(result_of("(/ 4 8)"), "1/2");
    assert_eq!(result_of("(% 7 2)"), "1");
    assert_eq!(result_of("(^ 2 10)"), "1024");
    assert_eq!(result_of("(+ 1/2 1/3)"), "5/6");
}

#[test]
fn boolean_logic() {
    assert_eq!(result_of("(& true true false)"), "false");
    assert_eq!(result_of("(| false false true)"), "true");
    assert_eq!(result_of("(! false)"), "true");
}

#[test]
fn arity_errors_name_both_lengths() {
    assert_eq!(
        result_of("(! 1 2)"),
        "Function Error! the passed arguments length 2 is different to expected length 1 of the function's arguments"
    );
}

#[test]
fn the_eval_builtin_runs_data() {
    assert_eq!(result_of("(eval '(+ 1 2))"), "3");
}

#[test]
fn annotations_check_the_result() {
    assert_eq!(result_of("(+ 1 2):number"), "3");
    assert_eq!(
        result_of("(+ 1 2):string"),
        "Type Error! the result value `3` is different to expected type `string`"
    );
}

#[test]
fn unbound_symbols_evaluate_to_themselves() {
    assert_eq!(result_of("zelkova"), "zelkova");
}

#[test]
fn exit_stops_an_embedded_run() {
    let (_, out) = run("(exit 3) (print \"unreachable\")");
    assert_eq!(out, "");
}

#[test]
fn character_constants_are_bound() {
    assert_eq!(result_of("new-line"), "\"\n\"");
    assert_eq!(result_of("tab"), "\"\t\"");
    assert_eq!(result_of("double-quote"), "\"\"\"");
}

#[test]
fn cond_returns_the_first_body_whose_test_reads_true() {
    assert_eq!(result_of("(cond '(false \"a\") '(true \"b\"))"), "\"b\"");
    assert_eq!(result_of("(cond '(false \"a\"))"), "null");
}

#[test]
fn applying_a_non_function_is_a_syntax_error() {
    assert_eq!(
        result_of("(1 2)"),
        "Syntax Error! first atom in expression should be function, but provided `1` is not function"
    );
}

#[test]
fn not_a_value_type(){
    let v = Type::Bool(true);
    assert_eq!(v.get_string(), "true");
    assert_eq!(v.get_type(), "bool");
    assert!(v.get_bool());
    assert_eq!(v.get_number().display(), "1");
}

#[test]
fn fractional_exponents_are_rejected() {
    assert_eq!(result_of("(^ 2 1/2)"), "Runtime Error! the exponent must be a whole number");
}

#[test]
fn oversized_literals_fall_back_to_symbols() {
    // a mantissa beyond the reader's range is not a number literal
    assert_eq!(result_of("(type 99999999999999999999999)"), "\"symbol\"");
    // thirteen or more fractional digits are beyond the reader
    assert_eq!(result_of("(type 0.1234567890123)"), "\"symbol\"");
    assert_eq!(result_of("(type 0.123456)"), "\"number\"");
}

#[test]
fn long_decimal_literals_keep_the_closest_fraction_under_the_cap() {
    // past six fractional digits the reader keeps the closest fraction with
    // a denominator of at most one million
    assert_eq!(result_of("0.333333333"), "1/3");
    assert_eq!(result_of("3.1415926535"), "2917129/928551");
    assert_eq!(result_of("0.1234567"), "118383/958903");
    assert_eq!(result_of("(type 3.1415926535)"), "\"number\"");
    assert_eq!(result_of("-0.333333333"), "-1/3");
}

#[test]
fn division_by_zero_yields_zero() {
    assert_eq!(result_of("(/ 1 0)"), "0");
    assert_eq!(result_of("(% 1 0)"), "0");
}

#[test]
fn annotated_parameters_accept_matching_arguments() {
    assert_eq!(result_of("(define (f x:string) x) (f \"a\")"), "\"a\"");
    assert_eq!(result_of("(define (g x:list) (len x)) (g '(1 2))"), "2");
}

#[test]
fn wrong_argument_count_is_an_arity_error() {
    assert_eq!(
        result_of("(define (f x) x) (f 1 2)"),
        "Function Error! the passed arguments length 2 is different to expected length 1 of the function's arguments"
    );
}

#[test]
fn lambda_prints_as_its_definition() {
    assert_eq!(result_of("(lambda '(n) (* n 10))"), "(lambda '(n) '(* n 10))");
}

#[test]
fn builtins_print_as_opaque_tokens() {
    assert_eq!(result_of("+"), "function(+)");
    assert_eq!(result_of("(= + +)"), "true");
    assert_eq!(result_of("(= + -)"), "false");
}

#[test]
fn value_definitions_bind_the_computed_value() {
    assert_eq!(result_of("(define x (+ 1 2)) x"), "3");
    assert_eq!(result_of("(define x '(1 2)) x"), "'(1 2)");
}

#[test]
fn function_definitions_keep_their_body_as_data() {
    assert_eq!(
        result_of("(define (fact n) (if (= n 0) 1 (* n (fact (- n 1))))) (fact 5)"),
        "120"
    );
}
