//! The lexer and the parser: source text to annotated tokens, and one token
//! to one annotated value tree. Each is specified by a mirror at the
//! mathematical level, and the executable code is proved to match it.

use vstd::prelude::*;
use crate::fraction::Fraction;
use crate::types::{Class, Expr, ExprV, GradiaError, GradiaErrorV, Type, TypeV, exprs_view};
use crate::text::{is_space, spec_trim, chars_of_str, trim_chars, string_from_chars, subvec};
use crate::coerce::spec_class_of_name;
use crate::print::push_str_chars;

verus! {

/// The lexer's running state: finished tokens, the token being built, the
/// annotation being built, and the colon, parenthesis-depth and quote flags.
#[verifier::ext_equal]
pub struct TokState {
    pub toks: Seq<(Seq<char>, Option<Seq<char>>)>,
    pub cur: Seq<char>,
    pub after: Seq<char>,
    pub is_colon: bool,
    pub depth: int,
    pub quote: bool,
}

pub open spec fn tok_init() -> TokState {
    TokState {
        toks: Seq::empty(),
        cur: Seq::empty(),
        after: Seq::empty(),
        is_colon: false,
        depth: 0,
        quote: false,
    }
}

/// Appends a character to the active buffer: the annotation when a colon has
/// been seen, else the token text.
pub open spec fn tok_push(st: TokState, c: char) -> TokState {
    if st.is_colon {
        TokState { after: st.after.push(c), ..st }
    } else {
        TokState { cur: st.cur.push(c), ..st }
    }
}

/// Emits the pending token, with the annotation when one was collected.
pub open spec fn tok_emit(st: TokState) -> TokState {
    TokState {
        toks: st.toks.push(
            (
                st.cur,
                if st.is_colon {
                    Some(st.after)
                } else {
                    None
                },
            ),
        ),
        cur: Seq::empty(),
        after: Seq::empty(),
        is_colon: false,
        ..st
    }
}

/// One character of lexing; nothing on a closing parenthesis at depth zero.
pub open spec fn tok_step(st: TokState, c: char) -> Option<TokState> {
    if c == '"' {
        Some(TokState { quote: !st.quote, ..tok_push(st, c) })
    } else if st.quote {
        Some(tok_push(st, c))
    } else if c == '(' {
        Some(TokState { depth: st.depth + 1, ..tok_push(st, c) })
    } else if c == ')' {
        if st.depth == 0 {
            None
        } else {
            Some(TokState { depth: st.depth - 1, ..tok_push(st, c) })
        }
    } else if is_space(c) {
        if st.depth != 0 {
            Some(tok_push(st, c))
        } else if st.cur.len() == 0 {
            Some(st)
        } else {
            Some(tok_emit(st))
        }
    } else if c == ':' {
        if st.depth != 0 {
            Some(tok_push(st, c))
        } else {
            Some(TokState { is_colon: true, ..st })
        }
    } else {
        Some(tok_push(st, c))
    }
}

pub open spec fn tok_fold(st: TokState, s: Seq<char>) -> Option<TokState>
    decreases s.len(),
{
    if s.len() == 0 {
        Some(st)
    } else {
        match tok_step(st, s[0]) {
            None => None,
            Some(st2) => tok_fold(st2, s.skip(1)),
        }
    }
}

/// What lexing a whole text yields: the tokens, or which of the three
/// failures stopped it.
pub enum TokResult {
    Tokens(Seq<(Seq<char>, Option<Seq<char>>)>),
    ExtraClose,
    UnclosedQuote,
    UnclosedParen,
}

pub open spec fn spec_tokenize(s: Seq<char>) -> TokResult {
    match tok_fold(tok_init(), s) {
        None => TokResult::ExtraClose,
        Some(st) => {
            if st.quote {
                TokResult::UnclosedQuote
            } else if st.depth != 0 {
                TokResult::UnclosedParen
            } else if st.cur.len() > 0 {
                TokResult::Tokens(tok_emit(st).toks)
            } else {
                TokResult::Tokens(st.toks)
            }
        },
    }
}

/// Folding a text that ends in one more character steps once more at the end.
pub proof fn lemma_tok_fold_snoc(st: TokState, s: Seq<char>, c: char)
    ensures
        tok_fold(st, s.push(c)) == (match tok_fold(st, s) {
            None => None::<TokState>,
            Some(st2) => tok_step(st2, c),
        }),
    decreases s.len(),
{
    if s.len() == 0 {
        assert(s.push(c)[0] == c);
        assert(s.push(c).skip(1) =~= Seq::<char>::empty());
        assert(tok_fold(st, s) == Some(st));
        match tok_step(st, c) {
            None => {
                assert(tok_fold(st, s.push(c)) is None);
            },
            Some(st2) => {
                assert(tok_fold(st2, s.push(c).skip(1)) == Some(st2));
                assert(tok_fold(st, s.push(c)) == Some(st2));
            },
        }
    } else {
        assert(s.push(c)[0] == s[0]);
        assert(s.push(c).skip(1) =~= s.skip(1).push(c));
        match tok_step(st, s[0]) {
            None => {
            },
            Some(st2) => {
                lemma_tok_fold_snoc(st2, s.skip(1), c);
            },
        }
    }
}

/// Once the fold fails on a prefix, it fails on the whole text.
pub proof fn lemma_tok_fold_none_extends(st: TokState, s: Seq<char>, i: int)
    requires
        0 <= i <= s.len(),
        tok_fold(st, s.subrange(0, i)) is None,
    ensures
        tok_fold(st, s) is None,
    decreases s.len(),
{
    if s.len() > 0 {
        assert(s.subrange(0, i).len() == i);
        if i == 0 {
        } else {
            assert(s.subrange(0, i)[0] == s[0]);
            match tok_step(st, s[0]) {
                None => {
                },
                Some(st2) => {
                    assert(s.subrange(0, i).skip(1) =~= s.skip(1).subrange(0, i - 1));
                    lemma_tok_fold_none_extends(st2, s.skip(1), i - 1);
                },
            }
        }
    }
}

/// The view of the tokens the executable lexer builds.
pub open spec fn token_pair_view(p: (String, Option<String>)) -> (Seq<char>, Option<Seq<char>>) {
    (
        p.0@,
        match p.1 {
            Some(a) => Some(a@),
            None => None,
        },
    )
}

pub open spec fn token_pairs_view(s: Seq<(String, Option<String>)>) -> Seq<
    (Seq<char>, Option<Seq<char>>),
>
    decreases s,
{
    if s.len() == 0 {
        Seq::empty()
    } else {
        seq![token_pair_view(s[0])].add(token_pairs_view(s.skip(1)))
    }
}

pub proof fn lemma_token_pairs_view_props(s: Seq<(String, Option<String>)>)
    ensures
        token_pairs_view(s).len() == s.len(),
        forall|i: int|
            0 <= i < s.len() ==> token_pairs_view(s)[i] == token_pair_view(#[trigger] s[i]),
    decreases s,
{
    if s.len() > 0 {
        lemma_token_pairs_view_props(s.skip(1));
        assert forall|i: int|
            0 <= i < s.len() implies token_pairs_view(s)[i] == token_pair_view(
            #[trigger] s[i],
        ) by {
            if i > 0 {
                assert(s.skip(1)[i - 1] == s[i]);
                assert(token_pairs_view(s)[i] == token_pairs_view(s.skip(1))[i - 1]);
            }
        }
    }
}

/// Converts source text into annotated tokens, or rejects it for a stray
/// closing parenthesis, an unterminated string, or an unclosed parenthesis.
pub fn tokenize(input: String) -> (r: Result<Vec<(String, Option<String>)>, GradiaError>)
    ensures
        match r {
            Ok(toks) => spec_tokenize(input@) == TokResult::Tokens(token_pairs_view(toks@))
                && forall|j: int| 0 <= j < toks@.len() ==> (#[trigger] toks@[j]).0@.len()
                <= input@.len(),
            Err(e) => match spec_tokenize(input@) {
                TokResult::ExtraClose => e@ == GradiaErrorV::Syntax(
                    "there's duplicate end of the parentheses"@,
                ),
                TokResult::UnclosedQuote => e@ == GradiaErrorV::Syntax(
                    "there's not end of the quote"@,
                ),
                TokResult::UnclosedParen => e@ == GradiaErrorV::Syntax(
                    "there's not end of the parentheses"@,
                ),
                TokResult::Tokens(_) => false,
            },
        },
{
    let s = chars_of_str(input.as_str());
    let n = s.len();
    let mut toks: Vec<(String, Option<String>)> = Vec::new();
    let mut cur: Vec<char> = Vec::new();
    let mut after: Vec<char> = Vec::new();
    let mut is_colon: bool = false;
    let mut depth: usize = 0;
    let mut quote: bool = false;
    let ghost gstate0 = tok_init();
    let mut i: usize = 0;
    proof {
        assert(s@.subrange(0, 0) =~= Seq::<char>::empty());
    }
    while i < n
        invariant
            i <= n,
            n == s@.len(),
            s@ == input@,
            tok_fold(tok_init(), s@.subrange(0, i as int)) == Some(
                TokState {
                    toks: token_pairs_view(toks@),
                    cur: cur@,
                    after: after@,
                    is_colon: is_colon,
                    depth: depth as int,
                    quote: quote,
                },
            ),
            forall|j: int| 0 <= j < toks@.len() ==> (#[trigger] toks@[j]).0@.len() <= i,
            cur@.len() <= i,
            depth <= i,
        decreases n - i,
    {
        let ghost st = TokState {
            toks: token_pairs_view(toks@),
            cur: cur@,
            after: after@,
            is_colon: is_colon,
            depth: depth as int,
            quote: quote,
        };
        let c = s[i];
        proof {
            lemma_tok_fold_snoc(tok_init(), s@.subrange(0, i as int), c);
            assert(s@.subrange(0, i as int).push(c) =~= s@.subrange(0, i as int + 1));
        }
        if c == '"' {
            quote = !quote;
            if is_colon {
                after.push(c);
            } else {
                cur.push(c);
            }
        } else if quote {
            if is_colon {
                after.push(c);
            } else {
                cur.push(c);
            }
        } else if c == '(' {
            if is_colon {
                after.push(c);
            } else {
                cur.push(c);
            }
            depth = depth + 1;
        } else if c == ')' {
            if depth == 0 {
                proof {
                    assert(tok_step(st, c) is None);
                    lemma_tok_fold_none_extends(tok_init(), s@, i as int + 1);
                }
                let mut msg: Vec<char> = Vec::new();
                push_str_chars("there's duplicate end of the parentheses", &mut msg);
                return Err(GradiaError::Syntax(string_from_chars(&msg)));
            }
            if is_colon {
                after.push(c);
            } else {
                cur.push(c);
            }
            depth = depth - 1;
        } else if is_space_exec(c) {
            if depth != 0 {
                if is_colon {
                    after.push(c);
                } else {
                    cur.push(c);
                }
            } else if cur.len() == 0 {
            } else {
                let text = string_from_chars(&cur);
                let ann: Option<String> = if is_colon {
                    Some(string_from_chars(&after))
                } else {
                    None
                };
                let ghost gtoks = toks@;
                toks.push((text, ann));
                is_colon = false;
                cur = Vec::new();
                after = Vec::new();
                proof {
                    assert(toks@.subrange(0, gtoks.len() as int) =~= gtoks);
                    lemma_token_pairs_view_snoc(gtoks, toks@);
                }
            }
        } else if c == ':' {
            if depth != 0 {
                if is_colon {
                    after.push(c);
                } else {
                    cur.push(c);
                }
            } else {
                is_colon = true;
            }
        } else {
            if is_colon {
                after.push(c);
            } else {
                cur.push(c);
            }
        }
        i = i + 1;
    }
    proof {
        assert(s@.subrange(0, n as int) =~= s@);
    }
    if quote {
        let mut msg: Vec<char> = Vec::new();
        push_str_chars("there's not end of the quote", &mut msg);
        return Err(GradiaError::Syntax(string_from_chars(&msg)));
    }
    if depth != 0 {
        let mut msg: Vec<char> = Vec::new();
        push_str_chars("there's not end of the parentheses", &mut msg);
        return Err(GradiaError::Syntax(string_from_chars(&msg)));
    }
    if cur.len() > 0 {
        let text = string_from_chars(&cur);
        let ann: Option<String> = if is_colon {
            Some(string_from_chars(&after))
        } else {
            None
        };
        let ghost gtoks = toks@;
        toks.push((text, ann));
        proof {
            assert(toks@.subrange(0, gtoks.len() as int) =~= gtoks);
            lemma_token_pairs_view_snoc(gtoks, toks@);
        }
    }
    Ok(toks)
}

/// Appending one executable token appends its view.
proof fn lemma_token_pairs_view_snoc(a: Seq<(String, Option<String>)>, b: Seq<
    (String, Option<String>)>)
    requires
        b.len() == a.len() + 1,
        b.subrange(0, a.len() as int) == a,
    ensures
        token_pairs_view(b) == token_pairs_view(a).push(token_pair_view(b[a.len() as int])),
    decreases a.len(),
{
    lemma_token_pairs_view_props(a);
    lemma_token_pairs_view_props(b);
    assert forall|i: int|
        0 <= i < b.len() implies token_pairs_view(b)[i] == token_pairs_view(a).push(
        token_pair_view(b[a.len() as int]),
    )[i] by {
        if i < a.len() {
            assert(b.subrange(0, a.len() as int)[i] == b[i]);
            assert(a[i] == b[i]);
        }
    }
    assert(token_pairs_view(b) =~= token_pairs_view(a).push(token_pair_view(b[a.len() as int])));
}

/// Whether a character is one of the language's separators.
fn is_space_exec(c: char) -> (r: bool)
    ensures
        r == is_space(c),
{
    c == ' ' || c == '\u{3000}' || c == '\n' || c == '\t' || c == '\r'
}

/// Whether every token text in a list is at most `b` characters long.
pub open spec fn toks_bounded(ts: Seq<(Seq<char>, Option<Seq<char>>)>, b: int) -> bool {
    forall|j: int| 0 <= j < ts.len() ==> (#[trigger] ts[j]).0.len() <= b
}

/// Lexing `s` grows each token text by at most the characters read.
proof fn lemma_tok_fold_bounded(st: TokState, s: Seq<char>, b: int)
    requires
        tok_fold(st, s) is Some,
        toks_bounded(st.toks, b),
        st.cur.len() <= b,
        b >= 0,
    ensures
        toks_bounded(tok_fold(st, s).unwrap().toks, b + s.len()),
        tok_fold(st, s).unwrap().cur.len() <= b + s.len(),
    decreases s.len(),
{
    if s.len() > 0 {
        let st2 = tok_step(st, s[0]).unwrap();
        assert(toks_bounded(st2.toks, b + 1)) by {
            assert forall|j: int| 0 <= j < st2.toks.len() implies (#[trigger] st2.toks[j]).0.len()
                <= b + 1 by {
                if j < st.toks.len() {
                    assert(st.toks[j].0.len() <= b);
                }
            }
        }
        lemma_tok_fold_bounded(st2, s.skip(1), b + 1);
    }
}

/// The tokens of a text are no longer than the text.
pub proof fn lemma_spec_tokenize_bounded(s: Seq<char>)
    ensures
        match spec_tokenize(s) {
            TokResult::Tokens(ts) => toks_bounded(ts, s.len() as int),
            _ => true,
        },
{
    match tok_fold(tok_init(), s) {
        None => {
        },
        Some(st) => {
            lemma_tok_fold_bounded(tok_init(), s, 0);
            if !st.quote && st.depth == 0 && st.cur.len() > 0 {
                assert forall|j: int|
                    0 <= j < tok_emit(st).toks.len() implies (#[trigger] tok_emit(
                    st,
                ).toks[j]).0.len() <= s.len() as int by {
                    if j < st.toks.len() {
                        assert(st.toks[j].0.len() <= s.len());
                    }
                }
            }
        },
    }
}

/// Whether a string is still open after reading the text: the parity of its
/// quote characters.
pub open spec fn quote_open(s: Seq<char>) -> bool
    decreases s.len(),
{
    if s.len() == 0 {
        false
    } else if s.last() == '"' {
        !quote_open(s.drop_last())
    } else {
        quote_open(s.drop_last())
    }
}

/// Opening minus closing parentheses in the text, counting only those that
/// stand outside string quotes.
pub open spec fn paren_depth(s: Seq<char>) -> int
    decreases s.len(),
{
    if s.len() == 0 {
        0
    } else {
        let d = paren_depth(s.drop_last());
        let c = s.last();
        if c == '"' || quote_open(s.drop_last()) {
            d
        } else if c == '(' {
            d + 1
        } else if c == ')' {
            d - 1
        } else {
            d
        }
    }
}

/// The lexer's state tracks the quote parity and the parenthesis count of the
/// prefix it has read; it fails exactly when the count first falls below
/// zero.
proof fn lemma_tok_state_counts(s: Seq<char>)
    ensures
        match tok_fold(tok_init(), s) {
            Some(st) => st.quote == quote_open(s) && st.depth == paren_depth(s) && (forall|i: int|
                0 <= i <= s.len() ==> paren_depth(#[trigger] s.take(i)) >= 0),
            None => exists|i: int| 0 <= i <= s.len() && paren_depth(#[trigger] s.take(i)) < 0,
        },
    decreases s.len(),
{
    if s.len() > 0 {
        let p = s.drop_last();
        let c = s.last();
        lemma_tok_state_counts(p);
        lemma_tok_fold_snoc(tok_init(), p, c);
        assert(p.push(c) =~= s);
        assert forall|i: int| 0 <= i <= p.len() implies s.take(i) =~= p.take(i) by {}
        assert(s.take(s.len() as int) =~= s);
        match tok_fold(tok_init(), p) {
            Some(st) => {
                if c == '"' {
                } else if st.quote {
                } else if c == '(' {
                } else if c == ')' {
                    if st.depth == 0 {
                        assert(paren_depth(s) < 0);
                    }
                } else {
                }
            },
            None => {
                let i = choose|i: int| 0 <= i <= p.len() && paren_depth(#[trigger] p.take(i)) < 0;
                assert(paren_depth(s.take(i)) < 0);
            },
        }
    } else {
        assert(s.take(0) =~= s);
    }
}

/// Which inputs the tokenizer rejects, in terms of the text alone: one with
/// more closing than opening parentheses in some prefix, outside quotes; one
/// whose quotes do not close; one whose parentheses do not close.
pub proof fn lemma_tokenize_rejections(s: Seq<char>)
    ensures
        (spec_tokenize(s) is ExtraClose) <==> (exists|i: int|
            0 <= i <= s.len() && paren_depth(#[trigger] s.take(i)) < 0),
        (spec_tokenize(s) is UnclosedQuote) <==> ((forall|i: int|
            0 <= i <= s.len() ==> paren_depth(#[trigger] s.take(i)) >= 0) && quote_open(s)),
        (spec_tokenize(s) is UnclosedParen) <==> ((forall|i: int|
            0 <= i <= s.len() ==> paren_depth(#[trigger] s.take(i)) >= 0) && !quote_open(s)
            && paren_depth(s) > 0),
{
    lemma_tok_state_counts(s);
    assert(s.take(s.len() as int) =~= s);
}

/// Text the lexer passes through whole: no separators, parentheses, quotes
/// or colons.
pub open spec fn token_plain(s: Seq<char>) -> bool {
    forall|j: int|
        0 <= j < s.len() ==> {
            let c = #[trigger] s[j];
            &&& !is_space(c)
            &&& c != '(' && c != ')' && c != '"' && c != ':'
        }
}

/// Inside a string, every character short of the closing quote is
/// accumulated into the pending token.
proof fn lemma_tok_fold_quoted(st: TokState, s: Seq<char>)
    requires
        st.quote,
        !st.is_colon,
        forall|j: int| 0 <= j < s.len() ==> s[j] != '"',
    ensures
        tok_fold(st, s) == Some(TokState { cur: st.cur.add(s), ..st }),
    decreases s.len(),
{
    if s.len() == 0 {
        assert(st.cur.add(s) =~= st.cur);
        assert(TokState { cur: st.cur.add(s), ..st } =~= st);
    } else {
        let st2 = TokState { cur: st.cur.push(s[0]), ..st };
        assert(tok_step(st, s[0]) == Some(st2));
        assert forall|j: int| 0 <= j < s.skip(1).len() implies s.skip(1)[j] != '"' by {
            assert(s.skip(1)[j] == s[j + 1]);
        }
        lemma_tok_fold_quoted(st2, s.skip(1));
        assert(st2.cur.add(s.skip(1)) =~= st.cur.add(s));
        assert(TokState { cur: st2.cur.add(s.skip(1)), ..st2 } =~= TokState {
            cur: st.cur.add(s),
            ..st
        });
    }
}

/// Folding a concatenation folds the two parts in turn.
proof fn lemma_tok_fold_concat(st: TokState, a: Seq<char>, b: Seq<char>)
    ensures
        tok_fold(st, a.add(b)) == (match tok_fold(st, a) {
            None => None::<TokState>,
            Some(m) => tok_fold(m, b),
        }),
    decreases a.len(),
{
    if a.len() == 0 {
        assert(a.add(b) =~= b);
    } else {
        assert(a.add(b)[0] == a[0]);
        match tok_step(st, a[0]) {
            None => {
            },
            Some(st2) => {
                assert(a.add(b).skip(1) =~= a.skip(1).add(b));
                lemma_tok_fold_concat(st2, a.skip(1), b);
            },
        }
    }
}

/// Reading the text leaves no open quote or parenthesis and never closes one
/// it did not open: the lexer passes it through inside one token.
pub open spec fn inner_ok(u: Seq<char>) -> bool {
    &&& !quote_open(u)
    &&& paren_depth(u) == 0
    &&& forall|i: int| 0 <= i <= u.len() ==> paren_depth(#[trigger] u.take(i)) >= 0
}

/// Counting quotes and parentheses distributes over concatenation when the
/// first part's quotes are closed.
proof fn lemma_counts_concat(a: Seq<char>, b: Seq<char>)
    requires
        !quote_open(a),
    ensures
        quote_open(a.add(b)) == quote_open(b),
        paren_depth(a.add(b)) == paren_depth(a) + paren_depth(b),
    decreases b.len(),
{
    if b.len() == 0 {
        assert(a.add(b) =~= a);
        assert(quote_open(Seq::<char>::empty()) == false);
    } else {
        lemma_counts_concat(a, b.drop_last());
        assert(a.add(b).drop_last() =~= a.add(b.drop_last()));
        assert(a.add(b).last() == b.last());
    }
}

/// Plain text opens no quote and counts no parentheses, in every prefix.
proof fn lemma_counts_plain(t: Seq<char>)
    requires
        token_plain(t),
    ensures
        !quote_open(t),
        paren_depth(t) == 0,
    decreases t.len(),
{
    if t.len() > 0 {
        assert(token_plain(t.drop_last())) by {
            assert forall|j: int| 0 <= j < t.drop_last().len() implies {
                let c = #[trigger] t.drop_last()[j];
                &&& !is_space(c)
                &&& c != '(' && c != ')' && c != '"' && c != ':'
            } by {
                assert(t.drop_last()[j] == t[j]);
            }
        }
        lemma_counts_plain(t.drop_last());
        assert(t.last() != '"' && t.last() != '(' && t.last() != ')');
    }
}

/// The empty text opens nothing and counts nothing.
proof fn lemma_counts_empty()
    ensures
        !quote_open(Seq::<char>::empty()),
        paren_depth(Seq::<char>::empty()) == 0,
{
}

/// An opening quote followed by quote-free text keeps the string open and
/// counts no parentheses.
proof fn lemma_counts_in_quote(u: Seq<char>)
    requires
        u.len() >= 1,
        u[0] == '"',
        forall|j: int| 0 < j < u.len() ==> u[j] != '"',
    ensures
        quote_open(u),
        paren_depth(u) == 0,
    decreases u.len(),
{
    if u.len() == 1 {
        lemma_counts_empty();
        assert(u.drop_last() =~= Seq::<char>::empty());
        assert(u.last() == '"');
        assert(!quote_open(u.drop_last()));
        assert(paren_depth(u.drop_last()) == 0);
    } else {
        assert(u.drop_last()[0] == u[0]);
        assert forall|j: int| 0 < j < u.drop_last().len() implies u.drop_last()[j] != '"' by {
            assert(u.drop_last()[j] == u[j]);
        }
        lemma_counts_in_quote(u.drop_last());
        assert(u.last() != '"');
    }
}

/// A state between tokens: some finished tokens, empty buffers, at depth
/// zero and outside any string.
pub open spec fn between_tokens(toks: Seq<(Seq<char>, Option<Seq<char>>)>) -> TokState {
    TokState {
        toks: toks,
        cur: Seq::empty(),
        after: Seq::empty(),
        is_colon: false,
        depth: 0,
        quote: false,
    }
}

/// The shape of a string literal free of inner quotes.
pub open spec fn string_shape(t: Seq<char>) -> bool {
    t.len() >= 2 && t[0] == '"' && t.last() == '"' && (forall|j: int|
        0 < j < t.len() - 1 ==> t[j] != '"')
}

/// A text the lexer reads as one whole token: a plain word, a string literal
/// free of inner quotes, or a parenthesized form — plain or quoted — whose
/// inside is balanced and quote-closed.
pub open spec fn clean_token(t: Seq<char>) -> bool {
    t.len() >= 1 && (token_plain(t) || string_shape(t) || (t.len() >= 2 && t[0] == '(' && t.last()
        == ')' && inner_ok(t.subrange(1, t.len() - 1))) || (t.len() >= 3 && t[0] == '\'' && t[1]
        == '(' && t.last() == ')' && inner_ok(t.subrange(2, t.len() - 1))))
}

/// Reading balanced, quote-closed text below the surface accumulates all of
/// it: every separator and colon inside parentheses is part of the token.
proof fn lemma_tok_fold_deep(st: TokState, t: Seq<char>)
    requires
        !st.is_colon,
        !st.quote,
        st.depth >= 1,
        forall|i: int| 0 <= i <= t.len() ==> st.depth + paren_depth(#[trigger] t.take(i)) >= 1,
    ensures
        tok_fold(st, t) == Some(
            TokState {
                cur: st.cur.add(t),
                depth: st.depth + paren_depth(t),
                quote: quote_open(t),
                ..st
            },
        ),
    decreases t.len(),
{
    if t.len() == 0 {
        assert(st.cur.add(t) =~= st.cur);
        assert(tok_fold(st, t) == Some(st));
        assert(Some(st) == Some(
            TokState {
                cur: st.cur.add(t),
                depth: st.depth + paren_depth(t),
                quote: quote_open(t),
                ..st
            },
        ));
    } else {
        let p = t.drop_last();
        let c = t.last();
        assert forall|i: int| 0 <= i <= p.len() implies st.depth + paren_depth(
            #[trigger] p.take(i),
        ) >= 1 by {
            assert(p.take(i) =~= t.take(i));
        }
        lemma_tok_fold_deep(st, p);
        lemma_tok_fold_snoc(st, p, c);
        assert(p.push(c) =~= t);
        let m = TokState {
            cur: st.cur.add(p),
            depth: st.depth + paren_depth(p),
            quote: quote_open(p),
            ..st
        };
        assert(t.take(p.len() as int) =~= p);
        assert(t.take(t.len() as int) =~= t);
        assert(m.depth >= 1);
        assert(st.cur.add(p).push(c) =~= st.cur.add(t));
        let goal = TokState {
            cur: st.cur.add(t),
            depth: st.depth + paren_depth(t),
            quote: quote_open(t),
            ..st
        };
        if c == '"' {
            assert(tok_step(m, c) == Some(goal));
        } else if m.quote {
            assert(tok_step(m, c) == Some(goal));
        } else if c == '(' {
            assert(tok_step(m, c) == Some(goal));
        } else if c == ')' {
            assert(tok_step(m, c) == Some(goal));
        } else if is_space(c) {
            assert(tok_step(m, c) == Some(goal));
        } else if c == ':' {
            assert(tok_step(m, c) == Some(goal));
        } else {
            assert(tok_step(m, c) == Some(goal));
        }
    }
}

/// Every clean token is itself balanced and quote-closed, in every prefix.
proof fn lemma_clean_token_inner_ok(t: Seq<char>)
    requires
        clean_token(t),
    ensures
        inner_ok(t),
{
    if token_plain(t) {
        lemma_counts_plain(t);
        assert forall|i: int| 0 <= i <= t.len() implies paren_depth(#[trigger] t.take(i)) >= 0 by {
            assert(token_plain(t.take(i))) by {
                assert forall|j: int| 0 <= j < t.take(i).len() implies {
                    let c = #[trigger] t.take(i)[j];
                    &&& !is_space(c)
                    &&& c != '(' && c != ')' && c != '"' && c != ':'
                } by {
                    assert(t.take(i)[j] == t[j]);
                }
            }
            lemma_counts_plain(t.take(i));
        }
    } else if string_shape(t) {
        assert forall|i: int| 0 <= i <= t.len() implies paren_depth(#[trigger] t.take(i)) >= 0 by {
            if i >= 1 {
                let u = t.take(i);
                assert(u[0] == '"');
                if i < t.len() {
                    assert forall|j: int| 0 < j < u.len() implies u[j] != '"' by {
                        assert(u[j] == t[j]);
                    }
                    lemma_counts_in_quote(u);
                } else {
                    assert(u =~= t);
                    lemma_string_counts(t);
                }
            }
        }
        lemma_string_counts(t);
    } else if t.len() >= 2 && t[0] == '(' && t.last() == ')' && inner_ok(
        t.subrange(1, t.len() - 1),
    ) {
        lemma_paren_counts(t, 1);
    } else {
        lemma_paren_counts(t, 2);
    }
}

/// A string literal's counts: quotes closed, no parentheses counted.
proof fn lemma_string_counts(t: Seq<char>)
    requires
        string_shape(t),
    ensures
        !quote_open(t),
        paren_depth(t) == 0,
{
    let mid = t.drop_last();
    assert(mid[0] == '"');
    assert forall|j: int| 0 < j < mid.len() implies mid[j] != '"' by {
        assert(mid[j] == t[j]);
    }
    lemma_counts_in_quote(mid);
    assert(t.last() == '"');
}

/// A parenthesized token's counts: the opener at position `k - 1`, the
/// balanced inside, the closer at the end.
proof fn lemma_paren_counts(t: Seq<char>, k: int)
    requires
        k == 1 || k == 2,
        t.len() >= k + 1,
        t[k - 1] == '(',
        k == 2 ==> t[0] == '\'',
        t.last() == ')',
        inner_ok(t.subrange(k, t.len() - 1)),
    ensures
        inner_ok(t),
{
    let head = t.take(k);
    let inner = t.subrange(k, t.len() - 1);
    lemma_head_counts(t, k);
    lemma_counts_concat(head, inner);
    assert(head.add(inner) =~= t.drop_last());
    assert(!quote_open(t.drop_last()) && paren_depth(t.drop_last()) == 1);
    assert(paren_depth(t) == 0);
    assert(!quote_open(t));
    assert forall|i: int| 0 <= i <= t.len() implies paren_depth(#[trigger] t.take(i)) >= 0 by {
        if i <= k {
        } else if i < t.len() {
            assert(t.take(i) =~= head.add(inner.take(i - k)));
            lemma_counts_concat(head, inner.take(i - k));
            assert(paren_depth(inner.take(i - k)) >= 0) by {
                assert(inner.take(i - k) =~= inner.take(i - k));
            }
        } else {
            assert(t.take(i) =~= t);
        }
    }
}

/// The counts of the one- or two-character opener prefix: one open
/// parenthesis, no quote, and no prefix below zero.
proof fn lemma_head_counts(t: Seq<char>, k: int)
    requires
        k == 1 || k == 2,
        t.len() >= k + 1,
        t[k - 1] == '(',
        k == 2 ==> t[0] == '\'',
    ensures
        !quote_open(t.take(k)),
        paren_depth(t.take(k)) == 1,
        forall|i: int| 0 <= i <= k ==> paren_depth(#[trigger] t.take(i)) >= 0,
{
    lemma_counts_empty();
    assert(t.take(0) =~= Seq::<char>::empty());
    assert(t.take(1).drop_last() =~= Seq::<char>::empty());
    assert(t.take(1).last() == t[0]);
    assert(!quote_open(t.take(0)) && paren_depth(t.take(0)) == 0);
    if k == 1 {
        assert(t[0] == '(');
        assert(!quote_open(t.take(1)) && paren_depth(t.take(1)) == 1);
    } else {
        assert(t[0] == '\'');
        assert(!quote_open(t.take(1)) && paren_depth(t.take(1)) == 0);
        assert(t.take(2).drop_last() =~= t.take(1));
        assert(t.take(2).last() == t[1]);
        assert(t[1] == '(');
        assert(!quote_open(t.take(2)) && paren_depth(t.take(2)) == 1);
    }
}

/// Reading the opener then balanced inside then the closer accumulates the
/// whole parenthesized token.
proof fn lemma_tok_fold_paren(toks: Seq<(Seq<char>, Option<Seq<char>>)>, t: Seq<char>, k: int)
    requires
        k == 1 || k == 2,
        t.len() >= k + 1,
        t[k - 1] == '(',
        k == 2 ==> t[0] == '\'',
        t.last() == ')',
        inner_ok(t.subrange(k, t.len() - 1)),
    ensures
        tok_fold(between_tokens(toks), t) == Some(
            TokState { cur: t, ..between_tokens(toks) },
        ),
{
    let st = between_tokens(toks);
    let head = t.take(k);
    let inner = t.subrange(k, t.len() - 1);
    let sth = TokState { cur: head, depth: 1, ..st };
    assert(tok_fold(st, head) == Some(sth)) by {
        if k == 1 {
            assert(head.len() == 1);
            assert(head[0] == '(');
            assert(head.skip(1) =~= Seq::<char>::empty());
            let s1 = tok_step(st, '(').unwrap();
            assert(st.cur.push('(') =~= head);
            assert(s1 =~= sth);
            assert(tok_fold(s1, head.skip(1)) == Some(s1));
        } else {
            assert(head.len() == 2);
            assert(head[0] == '\'');
            assert(head[1] == '(');
            assert(head =~= seq!['\''].push('('));
            lemma_tok_fold_snoc(st, seq!['\''], '(');
            assert(seq!['\''][0] == '\'');
            assert(seq!['\''].skip(1) =~= Seq::<char>::empty());
            let s1 = tok_step(st, '\'').unwrap();
            assert(st.cur.push('\'') =~= seq!['\'']);
            assert(s1 =~= (TokState { cur: seq!['\''], ..st }));
            assert(tok_fold(s1, seq!['\''].skip(1)) == Some(s1));
            assert(tok_fold(st, seq!['\'']) == Some(s1));
            let s2 = tok_step(s1, '(').unwrap();
            assert(s1.cur.push('(') =~= head);
            assert(s2 =~= sth);
        }
    }
    assert forall|i: int| 0 <= i <= inner.len() implies sth.depth + paren_depth(
        #[trigger] inner.take(i),
    ) >= 1 by {
        assert(inner.take(i) =~= inner.take(i));
    }
    lemma_tok_fold_deep(sth, inner);
    let m = TokState {
        cur: head.add(inner),
        depth: 1 + paren_depth(inner),
        quote: quote_open(inner),
        ..sth
    };
    assert(sth.cur.add(inner) =~= head.add(inner));
    assert(tok_fold(sth, inner) == Some(m));
    lemma_tok_fold_concat(st, head, inner);
    assert(tok_fold(st, head.add(inner)) == Some(m));
    lemma_tok_fold_snoc(st, head.add(inner), ')');
    assert(head.add(inner).push(')') =~= t);
    assert(m.depth == 1 && !m.quote);
    let fin = tok_step(m, ')').unwrap();
    assert(m.cur.push(')') =~= t);
    assert(fin =~= (TokState { cur: t, ..between_tokens(toks) }));
}

/// Joined clean tokens are balanced and quote-closed, in every prefix.
pub proof fn lemma_join_inner_ok(ts: Seq<Seq<char>>)
    requires
        forall|i: int| 0 <= i < ts.len() ==> clean_token(#[trigger] ts[i]),
    ensures
        inner_ok(join_tokens(ts)),
    decreases ts.len(),
{
    if ts.len() == 0 {
        assert(join_tokens(ts).take(0) =~= join_tokens(ts));
    } else if ts.len() == 1 {
        lemma_clean_token_inner_ok(ts[0]);
    } else {
        let head = ts[0];
        let a = head.push(' ');
        let rest = join_tokens(ts.skip(1));
        assert(join_tokens(ts) == a.add(rest));
        lemma_clean_token_inner_ok(head);
        assert(!quote_open(a) && paren_depth(a) == 0) by {
            assert(a.drop_last() =~= head);
            assert(a.last() == ' ');
        }
        assert forall|i: int| 0 <= i < ts.skip(1).len() implies clean_token(
            #[trigger] ts.skip(1)[i],
        ) by {
            assert(ts.skip(1)[i] == ts[i + 1]);
        }
        lemma_join_inner_ok(ts.skip(1));
        lemma_counts_concat(a, rest);
        let w = join_tokens(ts);
        assert forall|i: int| 0 <= i <= w.len() implies paren_depth(#[trigger] w.take(i)) >= 0 by {
            if i <= head.len() {
                assert(w.take(i) =~= head.take(i));
            } else if i <= a.len() {
                assert(w.take(i) =~= a);
            } else {
                assert(w.take(i) =~= a.add(rest.take(i - a.len())));
                lemma_counts_concat(a, rest.take(i - a.len()));
            }
        }
    }
}

/// Every token is at most as long as the joined text.
pub proof fn lemma_token_len_in_join(ts: Seq<Seq<char>>, i: int)
    requires
        0 <= i < ts.len(),
    ensures
        ts[i].len() <= join_tokens(ts).len(),
    decreases ts.len(),
{
    if ts.len() > 1 {
        if i == 0 {
        } else {
            lemma_token_len_in_join(ts.skip(1), i - 1);
            assert(ts.skip(1)[i - 1] == ts[i]);
        }
    }
}

/// Reading one clean token from a between-tokens state accumulates exactly
/// that token.
proof fn lemma_tok_fold_clean(toks: Seq<(Seq<char>, Option<Seq<char>>)>, t: Seq<char>)
    requires
        clean_token(t),
    ensures
        tok_fold(between_tokens(toks), t) == Some(
            TokState { cur: t, ..between_tokens(toks) },
        ),
{
    let st = between_tokens(toks);
    if token_plain(t) {
        lemma_tok_fold_plain_from(st, t);
    } else if string_shape(t) {
        let inner = t.subrange(1, t.len() - 1);
        assert(t =~= seq!['"'].add(inner).push('"'));
        let st1 = tok_step(st, '"').unwrap();
        assert(st1 == TokState { cur: seq!['"'], quote: true, ..st });
        assert forall|j: int| 0 <= j < inner.len() implies inner[j] != '"' by {
            assert(inner[j] == t[j + 1]);
        }
        lemma_tok_fold_quoted(st1, inner);
        let st2 = TokState { cur: seq!['"'].add(inner), ..st1 };
        lemma_tok_fold_concat(st, seq!['"'].add(inner), seq!['"']);
        assert(seq!['"'].add(inner).add(seq!['"']) =~= t);
        assert(seq!['"'].add(inner)[0] == '"');
        assert(tok_fold(st, seq!['"'].add(inner)) == Some(st2)) by {
            assert(seq!['"'].add(inner).skip(1) =~= inner);
            assert(st1.cur.add(inner) =~= seq!['"'].add(inner));
        }
        assert(seq!['"'][0] == '"');
        let stepped = tok_step(st2, '"').unwrap();
        assert(st2.cur.push('"') =~= t);
        assert(stepped =~= (TokState { cur: t, ..between_tokens(toks) }));
        assert(seq!['"'].skip(1) =~= Seq::<char>::empty());
        assert(tok_fold(stepped, seq!['"'].skip(1)) == Some(stepped));
        assert(tok_fold(st2, seq!['"']) == Some(stepped));
    } else if t.len() >= 2 && t[0] == '(' && t.last() == ')' && inner_ok(
        t.subrange(1, t.len() - 1),
    ) {
        lemma_tok_fold_paren(toks, t, 1);
    } else {
        lemma_tok_fold_paren(toks, t, 2);
    }
}

/// Reading plain text from any between-tokens-like state accumulates it.
proof fn lemma_tok_fold_plain_from(st: TokState, s: Seq<char>)
    requires
        token_plain(s),
        !st.is_colon,
        st.depth == 0,
        !st.quote,
    ensures
        tok_fold(st, s) == Some(TokState { cur: st.cur.add(s), ..st }),
    decreases s.len(),
{
    if s.len() == 0 {
        assert(st.cur.add(s) =~= st.cur);
        assert(TokState { cur: st.cur.add(s), ..st } =~= st);
    } else {
        let st2 = TokState { cur: st.cur.push(s[0]), ..st };
        assert(tok_step(st, s[0]) == Some(st2));
        assert forall|j: int| 0 <= j < s.skip(1).len() implies {
            let c = #[trigger] s.skip(1)[j];
            &&& !is_space(c)
            &&& c != '(' && c != ')' && c != '"' && c != ':'
        } by {
            assert(s.skip(1)[j] == s[j + 1]);
        }
        lemma_tok_fold_plain_from(st2, s.skip(1));
        assert(st2.cur.add(s.skip(1)) =~= st.cur.add(s));
        assert(TokState { cur: st2.cur.add(s.skip(1)), ..st2 } =~= TokState {
            cur: st.cur.add(s),
            ..st
        });
    }
}

/// Clean tokens joined by single spaces.
pub open spec fn join_tokens(ts: Seq<Seq<char>>) -> Seq<char>
    decreases ts.len(),
{
    if ts.len() == 0 {
        Seq::empty()
    } else if ts.len() == 1 {
        ts[0]
    } else {
        ts[0].push(' ').add(join_tokens(ts.skip(1)))
    }
}

/// Lexing clean tokens joined by single spaces yields exactly those tokens,
/// each unannotated.
pub proof fn lemma_tokenize_join(ts: Seq<Seq<char>>)
    requires
        forall|i: int| 0 <= i < ts.len() ==> clean_token(#[trigger] ts[i]),
    ensures
        spec_tokenize(join_tokens(ts)) == TokResult::Tokens(
            Seq::new(ts.len(), |i: int| (ts[i], None::<Seq<char>>)),
        ),
{
    lemma_tok_fold_join(Seq::empty(), ts);
    assert(tok_init() =~= between_tokens(Seq::empty()));
    let expected = Seq::new(ts.len(), |i: int| (ts[i], None::<Seq<char>>));
    if ts.len() == 0 {
        assert(join_tokens(ts).len() == 0);
        assert(expected =~= Seq::<(Seq<char>, Option<Seq<char>>)>::empty());
    } else {
        let prefix = Seq::new((ts.len() - 1) as nat, |i: int| (ts[i], None::<Seq<char>>));
        let last = TokState { cur: ts.last(), ..between_tokens(prefix) };
        assert(Seq::<(Seq<char>, Option<Seq<char>>)>::empty().add(prefix) =~= prefix);
        assert(tok_fold(tok_init(), join_tokens(ts)) == Some(last));
        assert(ts.last().len() >= 1);
        assert(tok_emit(last).toks =~= expected);
    }
}

/// Reading joined clean tokens from a between-tokens state finishes all but
/// the last, which stays pending.
proof fn lemma_tok_fold_join(toks: Seq<(Seq<char>, Option<Seq<char>>)>, ts: Seq<Seq<char>>)
    requires
        forall|i: int| 0 <= i < ts.len() ==> clean_token(#[trigger] ts[i]),
    ensures
        ts.len() == 0 ==> tok_fold(between_tokens(toks), join_tokens(ts)) == Some(
            between_tokens(toks),
        ),
        ts.len() >= 1 ==> tok_fold(between_tokens(toks), join_tokens(ts)) == Some(
            TokState { cur: ts.last(), ..between_tokens(
                toks.add(Seq::new((ts.len() - 1) as nat, |i: int| (ts[i], None::<Seq<char>>))),
            ) },
        ),
    decreases ts.len(),
{
    if ts.len() == 0 {
        assert(join_tokens(ts).len() == 0);
    } else if ts.len() == 1 {
        lemma_tok_fold_clean(toks, ts[0]);
        assert(toks.add(Seq::new(0, |i: int| (ts[i], None::<Seq<char>>))) =~= toks);
    } else {
        let st = between_tokens(toks);
        let head = ts[0];
        let rest = ts.skip(1);
        assert(join_tokens(ts) == head.push(' ').add(join_tokens(rest)));
        lemma_tok_fold_concat(st, head.push(' '), join_tokens(rest));
        // the head token, then the separating space, emits the head
        lemma_tok_fold_clean(toks, head);
        lemma_tok_fold_snoc(st, head, ' ');
        let after_head = TokState { cur: head, ..st };
        assert(head.len() >= 1);
        let emitted = tok_step(after_head, ' ').unwrap();
        assert(emitted == between_tokens(toks.push((head, None::<Seq<char>>))));
        assert forall|i: int| 0 <= i < rest.len() implies clean_token(#[trigger] rest[i]) by {
            assert(rest[i] == ts[i + 1]);
        }
        lemma_tok_fold_join(toks.push((head, None::<Seq<char>>)), rest);
        assert(rest.last() == ts.last());
        assert(toks.push((head, None::<Seq<char>>)).add(
            Seq::new((rest.len() - 1) as nat, |i: int| (rest[i], None::<Seq<char>>)),
        ) =~= toks.add(Seq::new((ts.len() - 1) as nat, |i: int| (ts[i], None::<Seq<char>>))));
    }
}

/// A single clean token lexes to exactly that one token, unannotated.
pub proof fn lemma_tokenize_clean_token(t: Seq<char>)
    requires
        clean_token(t),
    ensures
        spec_tokenize(t) == TokResult::Tokens(seq![(t, None::<Seq<char>>)]),
{
    lemma_tok_fold_clean(Seq::empty(), t);
    assert(tok_init() =~= between_tokens(Seq::empty()));
    let st = tok_fold(tok_init(), t).unwrap();
    assert(tok_emit(st).toks =~= seq![(t, None::<Seq<char>>)]);
}

/// Resolving an optional annotation text through the class table; `any` and
/// absence both mean no annotation.
pub open spec fn spec_annot(a: Option<Seq<char>>) -> Result<Option<Class>, GradiaErrorV> {
    match a {
        None => Ok(None),
        Some(s) => match spec_class_of_name(s) {
            Some(c) => Ok(Some(c)),
            None => if s == "any"@ {
                Ok(None)
            } else {
                Err(GradiaErrorV::Syntax("unknown type annotation `"@.add(s).push('`')))
            },
        },
    }
}

/// What parsing one token text under a resolved annotation yields. The token
/// is trimmed and classified in order: decimal literal, fraction literal,
/// boolean, null, string, application, quoted list, explicit symbol, symbol.
/// The fuel bounds the nesting depth; one more than the text length always
/// suffices.
pub open spec fn spec_parse(text: Seq<char>, annot: Option<Class>, fuel: nat) -> Result<
    ExprV,
    GradiaErrorV,
>
    decreases fuel, 0int, 0int,
{
    let t = spec_trim(text);
    if Fraction::spec_from_decimal(t) is Some {
        Ok(
            ExprV {
                expr: TypeV::Number(Fraction::from_pair(Fraction::spec_from_decimal(t).unwrap())),
                annotate: annot,
            },
        )
    } else if Fraction::spec_from_text(t) is Some {
        Ok(
            ExprV {
                expr: TypeV::Number(Fraction::from_pair(Fraction::spec_from_text(t).unwrap())),
                annotate: annot,
            },
        )
    } else if t == "true"@ {
        Ok(ExprV { expr: TypeV::Bool(true), annotate: annot })
    } else if t == "false"@ {
        Ok(ExprV { expr: TypeV::Bool(false), annotate: annot })
    } else if t == "null"@ {
        Ok(ExprV { expr: TypeV::Null, annotate: annot })
    } else if t.len() >= 2 && t[0] == '"' && t.last() == '"' {
        Ok(ExprV { expr: TypeV::String(t.subrange(1, t.len() - 1)), annotate: annot })
    } else if t.len() >= 2 && t[0] == '(' && t.last() == ')' {
        if fuel == 0 {
            Err(GradiaErrorV::Syntax("nesting too deep"@))
        } else {
            match spec_tokenize(t.subrange(1, t.len() - 1)) {
                TokResult::Tokens(ts) => match spec_parse_items(ts, (fuel - 1) as nat) {
                    Ok(items) => Ok(ExprV { expr: TypeV::Expr(items), annotate: annot }),
                    Err(e) => Err(e),
                },
                TokResult::ExtraClose => Err(
                    GradiaErrorV::Syntax("there's duplicate end of the parentheses"@),
                ),
                TokResult::UnclosedQuote => Err(
                    GradiaErrorV::Syntax("there's not end of the quote"@),
                ),
                TokResult::UnclosedParen => Err(
                    GradiaErrorV::Syntax("there's not end of the parentheses"@),
                ),
            }
        }
    } else if t.len() >= 2 && t[0] == '\'' && t[1] == '(' && t.last() == ')' {
        if fuel == 0 {
            Err(GradiaErrorV::Syntax("nesting too deep"@))
        } else {
            match spec_tokenize(t.subrange(2, t.len() - 1)) {
                TokResult::Tokens(ts) => match spec_parse_items(ts, (fuel - 1) as nat) {
                    Ok(items) => Ok(ExprV { expr: TypeV::List(items), annotate: annot }),
                    Err(e) => Err(e),
                },
                TokResult::ExtraClose => Err(
                    GradiaErrorV::Syntax("there's duplicate end of the parentheses"@),
                ),
                TokResult::UnclosedQuote => Err(
                    GradiaErrorV::Syntax("there's not end of the quote"@),
                ),
                TokResult::UnclosedParen => Err(
                    GradiaErrorV::Syntax("there's not end of the parentheses"@),
                ),
            }
        }
    } else if t.len() >= 1 && t[0] == '\'' {
        Ok(ExprV { expr: TypeV::Symbol(t.skip(1)), annotate: annot })
    } else {
        Ok(ExprV { expr: TypeV::Symbol(t), annotate: annot })
    }
}

/// Parsing each token of a list in order; the first failure wins.
pub open spec fn spec_parse_items(ts: Seq<(Seq<char>, Option<Seq<char>>)>, fuel: nat) -> Result<
    Seq<ExprV>,
    GradiaErrorV,
>
    decreases fuel, 1int, ts.len(),
{
    if ts.len() == 0 {
        Ok(Seq::empty())
    } else {
        match spec_annot(ts[0].1) {
            Err(e) => Err(e),
            Ok(c) => match spec_parse(ts[0].0, c, fuel) {
                Err(e) => Err(e),
                Ok(e0) => match spec_parse_items(ts.skip(1), fuel) {
                    Ok(rest) => Ok(seq![e0].add(rest)),
                    Err(e) => Err(e),
                },
            },
        }
    }
}

/// What parsing one annotated token yields.
pub open spec fn spec_parse_token(tok: (Seq<char>, Option<Seq<char>>), fuel: nat) -> Result<
    ExprV,
    GradiaErrorV,
> {
    match spec_annot(tok.1) {
        Err(e) => Err(e),
        Ok(c) => spec_parse(tok.0, c, fuel),
    }
}

/// Any fuel beyond the text length gives the same parse.
pub proof fn lemma_spec_parse_fuel(text: Seq<char>, annot: Option<Class>, f1: nat, f2: nat)
    requires
        f1 > text.len(),
        f2 > text.len(),
    ensures
        spec_parse(text, annot, f1) == spec_parse(text, annot, f2),
    decreases text.len(), 0int, 0int,
{
    let t = spec_trim(text);
    crate::text::lemma_spec_trim_len(text);
    if !(Fraction::spec_from_decimal(t) is Some) && !(Fraction::spec_from_text(t) is Some) && t
        != "true"@ && t != "false"@ && t != "null"@ && !(t.len() >= 2 && t[0] == '"' && t.last()
        == '"') {
        if t.len() >= 2 && t[0] == '(' && t.last() == ')' {
            let inner = t.subrange(1, t.len() - 1);
            lemma_spec_tokenize_bounded(inner);
            match spec_tokenize(inner) {
                TokResult::Tokens(ts) => {
                    lemma_spec_parse_items_fuel(
                        ts,
                        inner.len() as int,
                        (f1 - 1) as nat,
                        (f2 - 1) as nat,
                    );
                },
                _ => {
                },
            }
        } else if t.len() >= 2 && t[0] == '\'' && t[1] == '(' && t.last() == ')' {
            let inner = t.subrange(2, t.len() - 1);
            lemma_spec_tokenize_bounded(inner);
            match spec_tokenize(inner) {
                TokResult::Tokens(ts) => {
                    lemma_spec_parse_items_fuel(
                        ts,
                        inner.len() as int,
                        (f1 - 1) as nat,
                        (f2 - 1) as nat,
                    );
                },
                _ => {
                },
            }
        }
    }
}

/// Lifts one annotated token into an annotated value tree.
pub fn parse(token: (String, Option<String>)) -> (r: Result<Expr, GradiaError>)
    ensures
        match r {
            Ok(e) => spec_parse_token(token_pair_view(token), token.0@.len() + 1) == Ok::<
                ExprV,
                GradiaErrorV,
            >(e@),
            Err(err) => spec_parse_token(token_pair_view(token), token.0@.len() + 1) == Err::<
                ExprV,
                GradiaErrorV,
            >(err@),
        },
    decreases token.0@.len(), 0int,
{
    let (text_s, ann_s) = token;
    let annot: Option<Class> = match ann_s {
        Some(a) => match Class::from(a) {
            Ok(c) => c,
            Err(e) => {
                return Err(e);
            },
        },
        None => None,
    };
    let ghost fuel: nat = text_s@.len() + 1;
    let chars = chars_of_str(text_s.as_str());
    let t = trim_chars(&chars);
    proof {
        crate::text::lemma_spec_trim_len(text_s@);
    }
    match Fraction::from_decimal_text(&t) {
        Some(f) => {
            proof {
                Fraction::lemma_parts_in_range(f);
                Fraction::lemma_from_pair((f.num(), f.den()));
                Fraction::lemma_parts_determine(Fraction::from_pair((f.num(), f.den())), f);
            }
            return Ok(Expr { expr: Type::Number(f), annotate: annot });
        },
        None => {
        },
    }
    let tstr = string_from_chars(&t);
    match Fraction::from(string_from_chars(&t)) {
        Some(f) => {
            proof {
                Fraction::lemma_parts_in_range(f);
                Fraction::lemma_from_pair((f.num(), f.den()));
                Fraction::lemma_parts_determine(Fraction::from_pair((f.num(), f.den())), f);
            }
            return Ok(Expr { expr: Type::Number(f), annotate: annot });
        },
        None => {
        },
    }
    if string_eq_lit(&tstr, "true") {
        return Ok(Expr { expr: Type::Bool(true), annotate: annot });
    }
    if string_eq_lit(&tstr, "false") {
        return Ok(Expr { expr: Type::Bool(false), annotate: annot });
    }
    if string_eq_lit(&tstr, "null") {
        return Ok(Expr { expr: Type::Null, annotate: annot });
    }
    let tlen = t.len();
    if tlen >= 2 && t[0] == '"' && t[tlen - 1] == '"' {
        let inner = subvec(&t, 1, tlen - 1);
        return Ok(Expr { expr: Type::String(string_from_chars(&inner)), annotate: annot });
    }
    if tlen >= 2 && t[0] == '(' && t[tlen - 1] == ')' {
        let inner = subvec(&t, 1, tlen - 1);
        match tokenize(string_from_chars(&inner)) {
            Err(e) => {
                return Err(e);
            },
            Ok(toks) => {
                match parse_items(&toks, Ghost(inner@.len() as int), Ghost((fuel - 1) as nat)) {
                    Err(e) => {
                        return Err(e);
                    },
                    Ok(items) => {
                        return Ok(Expr { expr: Type::Expr(items), annotate: annot });
                    },
                }
            },
        }
    }
    if tlen >= 2 && t[0] == '\'' && t[1] == '(' && t[tlen - 1] == ')' {
        let inner = subvec(&t, 2, tlen - 1);
        match tokenize(string_from_chars(&inner)) {
            Err(e) => {
                return Err(e);
            },
            Ok(toks) => {
                match parse_items(&toks, Ghost(inner@.len() as int), Ghost((fuel - 1) as nat)) {
                    Err(e) => {
                        return Err(e);
                    },
                    Ok(items) => {
                        return Ok(Expr { expr: Type::List(items), annotate: annot });
                    },
                }
            },
        }
    }
    if tlen >= 1 && t[0] == '\'' {
        let rest = subvec(&t, 1, tlen);
        proof {
            assert(t@.subrange(1, tlen as int) =~= t@.skip(1));
        }
        return Ok(Expr { expr: Type::Symbol(string_from_chars(&rest)), annotate: annot });
    }
    Ok(Expr { expr: Type::Symbol(tstr), annotate: annot })
}

/// Parses every token of a list in order; the first failure wins.
fn parse_items(
    toks: &Vec<(String, Option<String>)>,
    Ghost(b): Ghost<int>,
    Ghost(fl): Ghost<nat>,
) -> (r: Result<Vec<Expr>, GradiaError>)
    requires
        forall|j: int| 0 <= j < toks@.len() ==> (#[trigger] toks@[j]).0@.len() <= b,
        b >= 0,
        fl > b,
    ensures
        match r {
            Ok(items) => spec_parse_items(token_pairs_view(toks@), fl) == Ok::<
                Seq<ExprV>,
                GradiaErrorV,
            >(exprs_view(items@)),
            Err(e) => spec_parse_items(token_pairs_view(toks@), fl) == Err::<
                Seq<ExprV>,
                GradiaErrorV,
            >(e@),
        },
    decreases b, 1int,
{
    let ghost full = token_pairs_view(toks@);
    proof {
        lemma_token_pairs_view_props(toks@);
        assert(full.skip(0) =~= full);
    }
    let n = toks.len();
    let mut items: Vec<Expr> = Vec::new();
    let mut i: usize = 0;
    proof {
        assert(exprs_view(items@) =~= Seq::<ExprV>::empty());
        match spec_parse_items(full, fl) {
            Ok(rest) => {
                assert(Seq::<ExprV>::empty().add(rest) =~= rest);
            },
            Err(_) => {
            },
        }
    }
    while i < n
        invariant
            i <= n,
            n == toks@.len(),
            full == token_pairs_view(toks@),
            full.len() == n,
            forall|j: int| 0 <= j < toks@.len() ==> (#[trigger] toks@[j]).0@.len() <= b,
            forall|j: int| 0 <= j < full.len() ==> full[j] == token_pair_view(#[trigger] toks@[j]),
            b >= 0,
            fl > b,
            exprs_view(items@).len() == i,
            items@.len() == i,
            spec_parse_items(full, fl) == (match spec_parse_items(full.skip(i as int), fl) {
                Ok(rest) => Ok::<Seq<ExprV>, GradiaErrorV>(exprs_view(items@).add(rest)),
                Err(e) => Err::<Seq<ExprV>, GradiaErrorV>(e),
            }),
        decreases n - i,
    {
        proof {
            assert(full.skip(i as int)[0] == token_pair_view(toks@[i as int]));
            assert(full.skip(i as int).skip(1) =~= full.skip(i as int + 1));
        }
        let e0 = &toks[i];
        let sub_text = e0.0.clone();
        let sub_ann: Option<String> = match &e0.1 {
            Some(a) => Some(a.clone()),
            None => None,
        };
        let ghost tp = token_pair_view((sub_text, sub_ann));
        proof {
            assert(tp == token_pair_view(toks@[i as int]));
        }
        match parse((sub_text, sub_ann)) {
            Err(e) => {
                proof {
                    match spec_annot(tp.1) {
                        Err(_) => {
                        },
                        Ok(c) => {
                            lemma_spec_parse_fuel(tp.0, c, tp.0.len() + 1, fl);
                        },
                    }
                }
                return Err(e);
            },
            Ok(e) => {
                let ghost ev = e@;
                let ghost old_items = items@;
                items.push(e);
                proof {
                    match spec_annot(tp.1) {
                        Err(_) => {
                        },
                        Ok(c) => {
                            lemma_spec_parse_fuel(tp.0, c, tp.0.len() + 1, fl);
                        },
                    }
                    crate::types::lemma_exprs_view_props(old_items);
                    crate::types::lemma_exprs_view_props(items@);
                    assert forall|j: int|
                        0 <= j < exprs_view(items@).len() implies exprs_view(items@)[j]
                        == exprs_view(old_items).push(ev)[j] by {
                        if j < old_items.len() {
                            assert(items@[j] == old_items[j]);
                        } else {
                            assert(items@[j] == items@[items@.len() - 1]);
                        }
                    }
                    assert(exprs_view(items@) =~= exprs_view(old_items).push(ev));
                    assert(exprs_view(old_items).add(seq![ev].add(
                        match spec_parse_items(full.skip(i as int + 1), fl) {
                            Ok(rest) => rest,
                            Err(_) => Seq::empty(),
                        },
                    )) =~= exprs_view(items@).add(
                        match spec_parse_items(full.skip(i as int + 1), fl) {
                            Ok(rest) => rest,
                            Err(_) => Seq::empty(),
                        },
                    ));
                }
                i = i + 1;
            },
        }
    }
    proof {
        assert(full.skip(n as int) =~= Seq::<(Seq<char>, Option<Seq<char>>)>::empty());
        assert(exprs_view(items@).add(Seq::<ExprV>::empty()) =~= exprs_view(items@));
    }
    Ok(items)
}

/// Whether a string's characters equal a literal's.
fn string_eq_lit(a: &String, b: &str) -> (r: bool)
    ensures
        r == (a@ == b@),
{
    let bo: String = b.to_owned();
    *a == bo
}

proof fn lemma_spec_parse_items_fuel(
    ts: Seq<(Seq<char>, Option<Seq<char>>)>,
    b: int,
    f1: nat,
    f2: nat,
)
    requires
        toks_bounded(ts, b),
        b >= 0,
        f1 > b,
        f2 > b,
    ensures
        spec_parse_items(ts, f1) == spec_parse_items(ts, f2),
    decreases b, 1int, ts.len(),
{
    if ts.len() > 0 {
        assert(ts[0].0.len() <= b);
        match spec_annot(ts[0].1) {
            Err(_) => {
            },
            Ok(c) => {
                lemma_spec_parse_fuel(ts[0].0, c, f1, f2);
                assert(toks_bounded(ts.skip(1), b)) by {
                    assert forall|j: int|
                        0 <= j < ts.skip(1).len() implies (#[trigger] ts.skip(1)[j]).0.len()
                        <= b by {
                        assert(ts.skip(1)[j] == ts[j + 1]);
                    }
                }
                lemma_spec_parse_items_fuel(ts.skip(1), b, f1, f2);
            },
        }
    }
}

} // verus!
