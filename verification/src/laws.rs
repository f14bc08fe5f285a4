//! Round-tripping: printing a value, then reading the text back through the
//! lexer and the parser, yields the value again. This holds of every number,
//! string, boolean and null, of every symbol that does not spell some other
//! literal form, and of quoted lists and applications of such values, to any
//! nesting depth.

use vstd::prelude::*;
use crate::fraction::{Fraction, norm};
use crate::fraction::{lemma_norm_of_canonical, lemma_gcd_one_right, nat_abs};
use crate::types::{ExprV, TypeV, GradiaErrorV};
use crate::numtext::{
    int_str, in_i64, spec_parse_i64, lemma_int_str_props, is_digit, all_digits,
};
use crate::text::{
    spec_trim, find_char, is_space, lemma_trim_noop, lemma_trim_head, lemma_find_char_absent,
    lemma_find_char_at, lemma_find_char_props,
};
use crate::parser::spec_parse;
use crate::print::print_type;

verus! {

/// Whether an atom's printable text reads back as the same value: every
/// number, string, boolean and null does; a symbol must be in trimmed form
/// and must not spell another literal form.
pub open spec fn atom_round_trips(v: TypeV) -> bool {
    match v {
        TypeV::Number(f) => Fraction::canonical(f.num(), f.den()),
        TypeV::String(_) => true,
        TypeV::Bool(_) => true,
        TypeV::Null => true,
        TypeV::Symbol(s) => {
            &&& spec_trim(s) == s
            &&& Fraction::spec_from_decimal(s) is None
            &&& Fraction::spec_from_text(s) is None
            &&& s != "true"@
            &&& s != "false"@
            &&& s != "null"@
            &&& !(s.len() >= 2 && s[0] == '"' && s.last() == '"')
            &&& !(s.len() >= 2 && s[0] == '(' && s.last() == ')')
            &&& !(s.len() >= 2 && s[0] == '\'' && s[1] == '(' && s.last() == ')')
            &&& !(s.len() >= 1 && s[0] == '\'')
        },
        _ => false,
    }
}

/// Parsing the printed form of a literal number, string, boolean, null or
/// non-colliding symbol yields an equal, unannotated value.
pub proof fn lemma_print_parse_round_trip(v: TypeV, fuel: nat)
    requires
        atom_round_trips(v),
    ensures
        spec_parse(print_type(v), None, fuel) == Ok::<ExprV, GradiaErrorV>(
            ExprV { expr: v, annotate: None },
        ),
{
    match v {
        TypeV::Number(f) => {
            lemma_number_round_trip(f, fuel);
        },
        TypeV::String(s) => {
            lemma_string_round_trip(s, fuel);
        },
        TypeV::Bool(b) => {
            lemma_word_round_trip(
                if b {
                    "true"@
                } else {
                    "false"@
                },
                fuel,
            );
            reveal_strlit("true");
            reveal_strlit("false");
        },
        TypeV::Null => {
            lemma_word_round_trip("null"@, fuel);
            reveal_strlit("true");
            reveal_strlit("false");
            reveal_strlit("null");
        },
        TypeV::Symbol(s) => {
        },
        _ => {
        },
    }
}

/// An unannotated atom whose printed text the lexer reads as one clean token
/// and whose value reads back as itself.
pub open spec fn clean_atom(e: ExprV) -> bool {
    &&& e.annotate is None
    &&& atom_round_trips(e.expr)
    &&& match e.expr {
        TypeV::Symbol(s) => crate::parser::token_plain(s) && s.len() >= 1,
        TypeV::String(s) => forall|j: int| 0 <= j < s.len() ==> s[j] != '"',
        _ => true,
    }
}

/// The printed form of a clean atom is a clean token.
proof fn lemma_atom_print_clean(e: ExprV)
    requires
        clean_atom(e),
    ensures
        crate::parser::clean_token(crate::print::print_expr(e)),
{
    let p = crate::print::print_expr(e);
    assert(p == print_type(e.expr));
    if let TypeV::String(s) = e.expr {
        assert(p == seq!['"'].add(s).push('"'));
        assert(p[0] == '"');
        assert(p.last() == '"');
        assert forall|j: int| 0 < j < p.len() - 1 implies p[j] != '"' by {
            assert(p[j] == s[j - 1]);
        }
    } else {
        lemma_atom_print_plain(e.expr);
    }
}

/// The printed form of a number, boolean, null or plain symbol passes the
/// lexer whole.
proof fn lemma_atom_print_plain(v: TypeV)
    requires
        atom_round_trips(v),
        match v {
            TypeV::Symbol(s) => crate::parser::token_plain(s) && s.len() >= 1,
            TypeV::String(_) => false,
            _ => true,
        },
    ensures
        crate::parser::token_plain(print_type(v)),
        print_type(v).len() >= 1,
{
    let p = print_type(v);
    match v {
        TypeV::Number(f) => {
            Fraction::lemma_parts_in_range(f);
            lemma_int_str_props(f.num());
            lemma_int_str_props(f.den());
            assert forall|j: int| 0 <= j < p.len() implies {
                let c = #[trigger] p[j];
                &&& !is_space(c)
                &&& c != '(' && c != ')' && c != '"' && c != ':'
            } by {
                let a = int_str(f.num());
                let b = int_str(f.den());
                if f.den() == 1 {
                    assert(p[j] == a[j]);
                    assert(is_digit(a[j]) || a[j] == '-');
                } else {
                    if j < a.len() {
                        assert(p[j] == a[j]);
                        assert(is_digit(a[j]) || a[j] == '-');
                    } else if j == a.len() {
                        assert(p[j] == '/');
                    } else {
                        assert(p[j] == b[j - a.len() - 1]);
                        assert(is_digit(b[j - a.len() - 1]) || b[j - a.len() - 1] == '-');
                    }
                }
            }
        },
        TypeV::Bool(_) => {
            reveal_strlit("true");
            reveal_strlit("false");
        },
        TypeV::Null => {
            reveal_strlit("null");
        },
        _ => {
        },
    }
}

/// Printed expressions separated by spaces are those printed texts, joined.
proof fn lemma_print_exprs_is_join(es: Seq<ExprV>)
    ensures
        crate::print::print_exprs(es) == crate::parser::join_tokens(
            Seq::new(es.len(), |i: int| crate::print::print_expr(es[i])),
        ),
    decreases es.len(),
{
    let ts = Seq::new(es.len(), |i: int| crate::print::print_expr(es[i]));
    if es.len() >= 2 {
        lemma_print_exprs_is_join(es.skip(1));
        assert(Seq::new(es.skip(1).len(), |i: int| crate::print::print_expr(es.skip(1)[i])) =~= ts
            .skip(1));
    }
}

/// A text whose first character can open no literal reading: not a number,
/// not a fraction, and none of the words.
proof fn lemma_head_blocks_literals(p: Seq<char>)
    requires
        p.len() >= 1,
        !is_digit(p[0]),
        p[0] != '-' && p[0] != '+' && p[0] != '.' && p[0] != '/',
        p[0] != 't' && p[0] != 'f' && p[0] != 'n',
        !is_space(p[0]),
    ensures
        Fraction::spec_parse_decimal(p) is None,
        Fraction::spec_from_text(p) is None,
        p != "true"@ && p != "false"@ && p != "null"@,
{
    lemma_find_char_props(p, '.');
    let dot = find_char(p, '.');
    if dot == p.len() {
        assert(!all_digits(p)) by {
            assert(!is_digit(p[0]));
        }
    } else {
        assert(p[dot] == '.');
        assert(dot != 0);
        let ip = p.subrange(0, dot);
        assert(ip[0] == p[0]);
        assert(!all_digits(ip)) by {
            assert(!is_digit(ip[0]));
        }
    }
    assert(Fraction::spec_parse_decimal(p) is None);
    lemma_find_char_props(p, '/');
    let slash = find_char(p, '/');
    if slash < p.len() {
        assert(slash != 0);
        let a = p.subrange(0, slash);
        assert(a[0] == p[0]);
        lemma_trim_head(a);
        let ta = spec_trim(a);
        assert(ta[0] == p[0]);
        assert(!all_digits(ta)) by {
            assert(!is_digit(ta[0]));
        }
        assert(spec_parse_i64(ta) is None);
        assert(Fraction::spec_from_text(p) is None);
    }
    reveal_strlit("true");
    reveal_strlit("false");
    reveal_strlit("null");
    assert(p != "true"@) by {
        if p == "true"@ {
            assert(p[0] == 't');
        }
    }
    assert(p != "false"@) by {
        if p == "false"@ {
            assert(p[0] == 'f');
        }
    }
    assert(p != "null"@) by {
        if p == "null"@ {
            assert(p[0] == 'n');
        }
    }
}

/// A value whose printed text reads back whole: an atom as above, or a
/// quoted list or application of such values, to any depth.
pub open spec fn clean_value(e: ExprV) -> bool
    decreases e,
{
    match e.expr {
        TypeV::List(es) => e.annotate is None && (forall|i: int|
            0 <= i < es.len() ==> clean_value(#[trigger] es[i])),
        TypeV::Expr(es) => e.annotate is None && (forall|i: int|
            0 <= i < es.len() ==> clean_value(#[trigger] es[i])),
        _ => clean_atom(e),
    }
}

/// The printed form of any clean value is one clean token.
pub proof fn lemma_value_print_clean(e: ExprV)
    requires
        clean_value(e),
    ensures
        crate::parser::clean_token(crate::print::print_expr(e)),
    decreases e,
{
    let p = crate::print::print_expr(e);
    assert(p == print_type(e.expr));
    match e.expr {
        TypeV::List(es) => {
            lemma_clean_elements(es, p, 2);
        },
        TypeV::Expr(es) => {
            lemma_clean_elements(es, p, 1);
        },
        _ => {
            lemma_atom_print_clean(e);
        },
    }
}

/// The joined elements of a printed collection are balanced and quote-closed,
/// so the whole printed collection is one clean token.
proof fn lemma_clean_elements(es: Seq<ExprV>, p: Seq<char>, k: int)
    requires
        forall|i: int| 0 <= i < es.len() ==> clean_value(#[trigger] es[i]),
        k == 1 || k == 2,
        p == (if k == 2 {
            "'("@.add(crate::print::print_exprs(es)).push(')')
        } else {
            "("@.add(crate::print::print_exprs(es)).push(')')
        }),
    ensures
        crate::parser::clean_token(p),
    decreases es,
{
    let ts = Seq::new(es.len(), |i: int| crate::print::print_expr(es[i]));
    assert forall|i: int| 0 <= i < ts.len() implies crate::parser::clean_token(
        #[trigger] ts[i],
    ) by {
        lemma_value_print_clean(es[i]);
    }
    lemma_print_exprs_is_join(es);
    crate::parser::lemma_join_inner_ok(ts);
    let body = crate::print::print_exprs(es);
    reveal_strlit("'(");
    reveal_strlit("(");
    if k == 2 {
        assert("'("@.len() == 2);
        assert(p[0] == '\'' && p[1] == '(' && p.last() == ')');
        assert(p.subrange(2, p.len() - 1) =~= body);
    } else {
        assert("("@.len() == 1);
        assert(p[0] == '(' && p.last() == ')');
        assert(p.subrange(1, p.len() - 1) =~= body);
    }
}

/// Printing any clean value, then parsing the text back, yields the value:
/// the canonical form round-trips, to any nesting depth.
pub proof fn lemma_value_round_trip(e: ExprV, fuel: nat)
    requires
        clean_value(e),
        fuel > crate::print::print_expr(e).len(),
    ensures
        spec_parse(crate::print::print_expr(e), None, fuel) == Ok::<ExprV, GradiaErrorV>(e),
    decreases e, 1int,
{
    let p = crate::print::print_expr(e);
    assert(p == print_type(e.expr));
    match e.expr {
        TypeV::List(es) => {
            lemma_collection_parse(es, p, 2, fuel);
            assert(ExprV { expr: TypeV::List(es), annotate: None } =~= e);
        },
        TypeV::Expr(es) => {
            lemma_collection_parse(es, p, 1, fuel);
            assert(ExprV { expr: TypeV::Expr(es), annotate: None } =~= e);
        },
        _ => {
            lemma_print_parse_round_trip(e.expr, fuel);
            assert(ExprV { expr: e.expr, annotate: None } =~= e);
        },
    }
}

/// Printing any clean value, lexing the text, and parsing its one token
/// yields the value back: the whole reading pipeline round-trips, to any
/// nesting depth.
pub proof fn lemma_pipeline_round_trip(e: ExprV, fuel: nat)
    requires
        clean_value(e),
        fuel > crate::print::print_expr(e).len(),
    ensures
        crate::parser::spec_tokenize(crate::print::print_expr(e))
            == crate::parser::TokResult::Tokens(
            seq![(crate::print::print_expr(e), None::<Seq<char>>)],
        ),
        crate::parser::spec_parse_token(
            (crate::print::print_expr(e), None::<Seq<char>>),
            fuel,
        ) == Ok::<ExprV, GradiaErrorV>(e),
{
    lemma_value_print_clean(e);
    crate::parser::lemma_tokenize_clean_token(crate::print::print_expr(e));
    lemma_value_round_trip(e, fuel);
}

/// Parsing a printed collection: the shape checks, the inner lexing, and the
/// element parses all land back on the elements.
proof fn lemma_collection_parse(es: Seq<ExprV>, p: Seq<char>, k: int, fuel: nat)
    requires
        forall|i: int| 0 <= i < es.len() ==> clean_value(#[trigger] es[i]),
        k == 1 || k == 2,
        p == (if k == 2 {
            "'("@.add(crate::print::print_exprs(es)).push(')')
        } else {
            "("@.add(crate::print::print_exprs(es)).push(')')
        }),
        fuel > p.len(),
    ensures
        k == 2 ==> spec_parse(p, None, fuel) == Ok::<ExprV, GradiaErrorV>(
            ExprV { expr: TypeV::List(es), annotate: None },
        ),
        k == 1 ==> spec_parse(p, None, fuel) == Ok::<ExprV, GradiaErrorV>(
            ExprV { expr: TypeV::Expr(es), annotate: None },
        ),
    decreases es, 1int,
{
    let ts = Seq::new(es.len(), |i: int| crate::print::print_expr(es[i]));
    assert forall|i: int| 0 <= i < ts.len() implies crate::parser::clean_token(
        #[trigger] ts[i],
    ) by {
        lemma_value_print_clean(es[i]);
    }
    lemma_print_exprs_is_join(es);
    crate::parser::lemma_tokenize_join(ts);
    let body = crate::print::print_exprs(es);
    reveal_strlit("'(");
    reveal_strlit("(");
    if k == 2 {
        assert("'("@.len() == 2);
        assert(p[0] == '\'' && p[1] == '(' && p.last() == ')');
        assert(p.subrange(2, p.len() - 1) =~= body);
    } else {
        assert("("@.len() == 1);
        assert(p[0] == '(' && p.last() == ')');
        assert(p.subrange(1, p.len() - 1) =~= body);
    }
    assert(!is_space(p[0]) && !is_space(p.last()));
    lemma_trim_noop(p);
    lemma_head_blocks_literals(p);
    assert forall|i: int|
        0 <= i < es.len() implies (fuel - 1) as nat > crate::print::print_expr(
        #[trigger] es[i],
    ).len() by {
        crate::parser::lemma_token_len_in_join(ts, i);
        assert(p.len() >= body.len() + 2);
    }
    lemma_items_round_trip(es, (fuel - 1) as nat);
    assert(Seq::new(ts.len(), |i: int| (ts[i], None::<Seq<char>>)) =~= Seq::new(
        es.len(),
        |i: int| (crate::print::print_expr(es[i]), None::<Seq<char>>),
    ));
}

/// Parsing the tokens of printed clean values yields those values.
proof fn lemma_items_round_trip(es: Seq<ExprV>, fuel: nat)
    requires
        forall|i: int| 0 <= i < es.len() ==> clean_value(#[trigger] es[i]),
        forall|i: int|
            0 <= i < es.len() ==> fuel > crate::print::print_expr(#[trigger] es[i]).len(),
    ensures
        crate::parser::spec_parse_items(
            Seq::new(es.len(), |i: int| (crate::print::print_expr(es[i]), None::<Seq<char>>)),
            fuel,
        ) == Ok::<Seq<ExprV>, GradiaErrorV>(es),
    decreases es, 0int,
{
    let ps = Seq::new(es.len(), |i: int| (crate::print::print_expr(es[i]), None::<Seq<char>>));
    if es.len() > 0 {
        let e0 = es[0];
        assert(ps[0] == (crate::print::print_expr(e0), None::<Seq<char>>));
        lemma_value_round_trip(e0, fuel);
        assert forall|i: int| 0 <= i < es.skip(1).len() implies clean_value(
            #[trigger] es.skip(1)[i],
        ) && fuel > crate::print::print_expr(es.skip(1)[i]).len() by {
            assert(es.skip(1)[i] == es[i + 1]);
        }
        lemma_items_round_trip(es.skip(1), fuel);
        assert(Seq::new(es.skip(1).len(), |i: int| (crate::print::print_expr(es.skip(1)[i]),
            None::<Seq<char>>)) =~= ps.skip(1));
        assert(seq![e0].add(es.skip(1)) =~= es);
    } else {
        assert(ps =~= Seq::<(Seq<char>, Option<Seq<char>>)>::empty());
        assert(es =~= Seq::<ExprV>::empty());
    }
}

/// The literal words: all lower-case letters, no separators, digits, signs,
/// points, slashes, quotes or parentheses.
spec fn plain_word(s: Seq<char>) -> bool {
    &&& s.len() >= 1
    &&& forall|j: int|
        0 <= j < s.len() ==> {
            let c = #[trigger] s[j];
            &&& !is_space(c)
            &&& !is_digit(c)
            &&& c != '-' && c != '+' && c != '.' && c != '/' && c != '"' && c != '(' && c != ')'
                && c != '\''
        }
}

/// The words `true`, `false` and `null` parse to their literal values.
proof fn lemma_word_round_trip(s: Seq<char>, fuel: nat)
    requires
        s == "true"@ || s == "false"@ || s == "null"@,
    ensures
        s == "true"@ ==> spec_parse(s, None, fuel) == Ok::<ExprV, GradiaErrorV>(
            ExprV { expr: TypeV::Bool(true), annotate: None },
        ),
        s == "false"@ ==> spec_parse(s, None, fuel) == Ok::<ExprV, GradiaErrorV>(
            ExprV { expr: TypeV::Bool(false), annotate: None },
        ),
        s == "null"@ ==> spec_parse(s, None, fuel) == Ok::<ExprV, GradiaErrorV>(
            ExprV { expr: TypeV::Null, annotate: None },
        ),
{
    reveal_strlit("true");
    reveal_strlit("false");
    reveal_strlit("null");
    assert(plain_word(s)) by {
        assert forall|j: int| 0 <= j < s.len() implies {
            let c = #[trigger] s[j];
            &&& !is_space(c)
            &&& !is_digit(c)
            &&& c != '-' && c != '+' && c != '.' && c != '/' && c != '"' && c != '(' && c != ')'
                && c != '\''
        } by {}
    }
    lemma_plain_word_literal(s);
    assert("true"@.len() != "false"@.len());
    assert("true"@[0] != "null"@[0]);
    assert("false"@[0] != "null"@[0]);
}

/// A plain word is trimmed, is no number and no fraction: parsing it reaches
/// the word comparisons unchanged.
proof fn lemma_plain_word_literal(s: Seq<char>)
    requires
        plain_word(s),
    ensures
        spec_trim(s) == s,
        Fraction::spec_parse_decimal(s) is None,
        Fraction::spec_from_text(s) is None,
{
    lemma_trim_noop(s);
    lemma_find_char_absent(s, '.');
    lemma_find_char_absent(s, '/');
    assert(!all_digits(s)) by {
        assert(!is_digit(s[0]));
    }
    assert(Fraction::spec_parse_decimal(s) is None);
}

/// A string literal parses back to the same string: the quotes protect it
/// from every other reading.
proof fn lemma_string_round_trip(s: Seq<char>, fuel: nat)
    ensures
        spec_parse(print_type(TypeV::String(s)), None, fuel) == Ok::<ExprV, GradiaErrorV>(
            ExprV { expr: TypeV::String(s), annotate: None },
        ),
{
    let p = print_type(TypeV::String(s));
    assert(p == seq!['"'].add(s).push('"'));
    assert(p.len() == s.len() + 2);
    assert(p[0] == '"');
    assert(p.last() == '"');
    assert(!is_space('"'));
    lemma_trim_noop(p);
    // not a decimal literal: whichever side of the point, a quote is no digit
    lemma_find_char_props(p, '.');
    let dot = find_char(p, '.');
    if dot == p.len() {
        assert(!all_digits(p)) by {
            assert(!is_digit(p[0]));
        }
    } else {
        assert(p[dot] == '.');
        assert(dot != 0);
        let ip = p.subrange(0, dot);
        let fp = p.subrange(dot + 1, p.len() as int);
        assert(ip[0] == p[0]);
        assert(!all_digits(ip)) by {
            assert(!is_digit(ip[0]));
        }
    }
    assert(Fraction::spec_parse_decimal(p) is None);
    // not a fraction literal: the left side starts with the quote
    lemma_find_char_props(p, '/');
    let slash = find_char(p, '/');
    if slash < p.len() {
        assert(slash != 0);
        let a = p.subrange(0, slash);
        assert(a[0] == '"');
        lemma_trim_head(a);
        let ta = spec_trim(a);
        assert(ta[0] == '"');
        assert(!is_digit('"'));
        assert(ta[0] != '-' && ta[0] != '+');
        assert(!all_digits(ta)) by {
            assert(!is_digit(ta[0]));
        }
        assert(spec_parse_i64(ta) is None);
        assert(Fraction::spec_from_text(p) is None);
    }
    // not one of the words
    reveal_strlit("true");
    reveal_strlit("false");
    reveal_strlit("null");
    assert(p != "true"@) by {
        if p == "true"@ {
            assert(p[0] == 't');
        }
    }
    assert(p != "false"@) by {
        if p == "false"@ {
            assert(p[0] == 'f');
        }
    }
    assert(p != "null"@) by {
        if p == "null"@ {
            assert(p[0] == 'n');
        }
    }
    // the string case itself
    assert(p.subrange(1, p.len() - 1) =~= s);
}

/// A displayed fraction parses back to the same fraction: a whole number
/// through the decimal reading, anything else through the fraction reading.
proof fn lemma_number_round_trip(f: Fraction, fuel: nat)
    requires
        Fraction::canonical(f.num(), f.den()),
    ensures
        spec_parse(print_type(TypeV::Number(f)), None, fuel) == Ok::<ExprV, GradiaErrorV>(
            ExprV { expr: TypeV::Number(f), annotate: None },
        ),
{
    Fraction::lemma_parts_in_range(f);
    lemma_int_str_props(f.num());
    lemma_int_str_props(f.den());
    let p = print_type(TypeV::Number(f));
    assert(p == f.spec_display());
    if f.den() == 1 {
        assert(p == int_str(f.num()));
        lemma_int_str_not_space(f.num());
        lemma_trim_noop(p);
        lemma_decimal_of_int_str(f.num());
        assert(norm(f.num(), 1) == (f.num(), 1int)) by {
            lemma_gcd_one_right(nat_abs(f.num()));
            lemma_norm_of_canonical(f.num(), 1);
        }
        assert(Fraction::spec_from_decimal(p) == Some((f.num(), f.den())));
        Fraction::lemma_from_pair((f.num(), f.den()));
        Fraction::lemma_parts_determine(Fraction::from_pair((f.num(), f.den())), f);
    } else {
        let a = int_str(f.num());
        let b = int_str(f.den());
        assert(p == a.add(seq!['/']).add(b));
        assert(p.len() == a.len() + 1 + b.len());
        let k = a.len() as int;
        assert forall|j: int| 0 <= j < p.len() implies (#[trigger] p[j] == '/' <==> j == k) by {
            if j < k {
                assert(p[j] == a[j]);
                assert(is_digit(a[j]) || (j == 0 && a[j] == '-'));
            } else if j > k {
                assert(p[j] == b[j - k - 1]);
                assert(is_digit(b[j - k - 1]) || (j - k - 1 == 0 && b[j - k - 1] == '-'));
            }
        }
        // head and tail are not separators
        assert(p[0] == a[0]);
        assert(p.last() == b[b.len() - 1]);
        lemma_int_str_not_space(f.num());
        lemma_int_str_not_space(f.den());
        lemma_trim_noop(p);
        // no decimal reading: the slash is no digit, and there is no point
        assert(p[k] == '/');
        lemma_no_dot_in_fraction_text(f.num(), f.den());
        let body = if p.len() >= 1 && (p[0] == '-' || p[0] == '+') {
            p.skip(1)
        } else {
            p
        };
        assert forall|j: int| 0 <= j < body.len() implies #[trigger] body[j] != '.' by {
            if p[0] == '-' || p[0] == '+' {
                assert(body[j] == p[j + 1]);
            }
        }
        lemma_find_char_absent(body, '.');
        if p[0] == '-' || p[0] == '+' {
            assert(!all_digits(body)) by {
                assert(body[k - 1] == p[k]);
                assert(!is_digit('/'));
            }
        } else {
            assert(!all_digits(body)) by {
                assert(!is_digit(body[k]));
            }
        }
        assert(Fraction::spec_parse_decimal(p) is None);
        // the fraction reading: split exactly at the slash
        assert forall|j: int| 0 <= j < k implies p[j] != '/' by {}
        lemma_find_char_at(p, '/', k);
        assert(p.subrange(0, k) =~= a);
        assert(p.subrange(k + 1, p.len() as int) =~= b);
        lemma_trim_noop(a);
        lemma_trim_noop(b);
        assert(spec_parse_i64(a) == Some(f.num()));
        assert(spec_parse_i64(b) == Some(f.den()));
        lemma_norm_of_canonical(f.num(), f.den());
        assert(Fraction::spec_from_text(p) == Some((f.num(), f.den())));
        Fraction::lemma_from_pair((f.num(), f.den()));
        Fraction::lemma_parts_determine(Fraction::from_pair((f.num(), f.den())), f);
    }
}

/// No character of a displayed integer is a separator.
proof fn lemma_int_str_not_space(n: int)
    requires
        in_i64(n),
    ensures
        forall|j: int| 0 <= j < int_str(n).len() ==> !is_space(#[trigger] int_str(n)[j]),
        int_str(n).len() >= 1,
{
    lemma_int_str_props(n);
    assert forall|j: int| 0 <= j < int_str(n).len() implies !is_space(#[trigger] int_str(n)[j]) by {
        assert(is_digit(int_str(n)[j]) || int_str(n)[j] == '-');
    }
}

/// A displayed whole number reads back as itself through the decimal literal.
proof fn lemma_decimal_of_int_str(n: int)
    requires
        in_i64(n),
    ensures
        Fraction::spec_parse_decimal(int_str(n)) == Some((n, 1int)),
{
    lemma_int_str_props(n);
    let s = int_str(n);
    if n < 0 {
        assert(s[0] == '-');
        let body = s.skip(1);
        assert(all_digits(body)) by {
            assert forall|j: int| 0 <= j < body.len() implies is_digit(#[trigger] body[j]) by {
                assert(body[j] == s[j + 1]);
            }
        }
        lemma_find_char_absent(body, '.');
        crate::numtext::lemma_dec_digits_wf((-n) as nat);
        assert(body =~= crate::numtext::dec_digits((-n) as nat));
        assert(crate::numtext::digits_val(body) == (-n) as nat);
        assert((-n) as nat <= u64::MAX);
    } else {
        assert(is_digit(s[0]));
        assert(s[0] != '-' && s[0] != '+');
        assert(all_digits(s));
        lemma_find_char_absent(s, '.');
        crate::numtext::lemma_dec_digits_wf(n as nat);
        assert(s =~= crate::numtext::dec_digits(n as nat));
        assert(crate::numtext::digits_val(s) == n as nat);
        assert(n as nat <= u64::MAX);
    }
}

/// In the two-part display of a fraction no character is a point.
proof fn lemma_no_dot_in_fraction_text(n: int, d: int)
    requires
        in_i64(n),
        in_i64(d),
    ensures
        ({
            let p = int_str(n).add(seq!['/']).add(int_str(d));
            forall|j: int| 0 <= j < p.len() ==> #[trigger] p[j] != '.'
        }),
{
    lemma_int_str_props(n);
    lemma_int_str_props(d);
    let a = int_str(n);
    let b = int_str(d);
    let p = a.add(seq!['/']).add(b);
    assert forall|j: int| 0 <= j < p.len() implies #[trigger] p[j] != '.' by {
        if j < a.len() {
            assert(p[j] == a[j]);
            assert(is_digit(a[j]) || a[j] == '-');
        } else if j == a.len() {
            assert(p[j] == '/');
        } else {
            assert(p[j] == b[j - a.len() - 1]);
            assert(is_digit(b[j - a.len() - 1]) || b[j - a.len() - 1] == '-');
        }
    }
}

} // verus!
