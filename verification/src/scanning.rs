//! What holds of the tokens of every text: how the tokens of a text are made
//! of the tokens of its parts, that whitespace between tokens counts for
//! nothing, and which texts are refused.

use crate::decimal::decimal_value;
use crate::lexer::{lemma_step_len, mark_token, step_len, step_token, tokens_of, word_token};
use crate::outcome::{join, lemma_prepend, nothing, only, CompileError};
use crate::text::{
    all_in, all_whitespace, is_digit, is_letter, lemma_run_len, lemma_run_len_concat,
    lemma_run_len_is, run_len, CharClass,
};
use crate::token::TokenView;
use vstd::prelude::*;

verus! {

/// The number of quotation marks in a text.
pub open spec fn quotes(s: Seq<char>) -> nat
    decreases s.len(),
{
    if s.len() == 0 {
        0
    } else {
        (if s[0] == '"' {
            1nat
        } else {
            0nat
        }) + quotes(s.skip(1))
    }
}

/// Whether a text stops inside a string literal: a literal opens at every
/// second quotation mark and closes at the next, so this is the case where
/// the text holds an odd number of them.
pub open spec fn ends_in_literal(s: Seq<char>) -> bool {
    quotes(s) % 2 == 1
}

/// Whether the end of `a` and the start of `b`, put side by side, run
/// together into one word or one number.
pub open spec fn glued(a: Seq<char>, b: Seq<char>) -> bool {
    a.len() > 0 && b.len() > 0 && ((is_letter(a.last()) && is_letter(b[0])) || (is_digit(a.last())
        && is_digit(b[0])))
}

/// A text between quotation marks.
pub open spec fn quoted(text: Seq<char>) -> Seq<char> {
    seq!['"'] + text + seq!['"']
}

/// Taking away characters that are no quotation marks leaves as many
/// quotation marks as before.
pub proof fn lemma_quotes_skip(s: Seq<char>, n: int)
    requires
        0 <= n <= s.len(),
        all_in(s.take(n), CharClass::Unquoted),
    ensures
        quotes(s.skip(n)) == quotes(s),
    decreases n,
{
    if n == 0 {
        assert(s.skip(0) =~= s);
    } else {
        assert(s.take(n)[0] == s[0]);
        assert forall|i: int| 0 <= i < n - 1 implies CharClass::Unquoted.contains(
            #[trigger] s.skip(1).take(n - 1)[i],
        ) by {
            assert(s.skip(1).take(n - 1)[i] == s.take(n)[i + 1]);
        }
        lemma_quotes_skip(s.skip(1), n - 1);
        assert(s.skip(1).skip(n - 1) =~= s.skip(n));
    }
}

/// A text without quotation marks holds none.
pub proof fn lemma_quotes_none(s: Seq<char>)
    requires
        all_in(s, CharClass::Unquoted),
    ensures
        quotes(s) == 0,
{
    lemma_quotes_skip(s, s.len() as int);
}

/// The quotation marks of two texts side by side are those of both.
pub proof fn lemma_quotes_concat(a: Seq<char>, b: Seq<char>)
    ensures
        quotes(a + b) == quotes(a) + quotes(b),
    decreases a.len(),
{
    if a.len() > 0 {
        assert((a + b).skip(1) =~= a.skip(1) + b);
        lemma_quotes_concat(a.skip(1), b);
    }
}

/// After one step of the scanner on a text that does not stop inside a
/// literal, what is left does not stop inside a literal either.
pub proof fn lemma_step_keeps_literals_whole(a: Seq<char>)
    requires
        a.len() > 0,
        !ends_in_literal(a),
    ensures
        !ends_in_literal(a.skip(step_len(a) as int)),
{
    let c = a[0];
    if CharClass::Letter.contains(c) {
        lemma_run_len(a, CharClass::Letter);
        let n = run_len(a, CharClass::Letter) as int;
        assert(all_in(a.take(n), CharClass::Unquoted));
        lemma_quotes_skip(a, n);
    } else if CharClass::Digit.contains(c) {
        lemma_run_len(a, CharClass::Digit);
        let n = run_len(a, CharClass::Digit) as int;
        assert(all_in(a.take(n), CharClass::Unquoted));
        lemma_quotes_skip(a, n);
    } else if c == '"' {
        let body = a.skip(1);
        lemma_run_len(body, CharClass::Unquoted);
        let m = run_len(body, CharClass::Unquoted) as int;
        lemma_quotes_skip(body, m);
        let tail = body.skip(m);
        assert(tail.skip(1) =~= a.skip(m + 2));
    }
}

/// In a text that begins with a quotation mark and does not stop inside a
/// literal, the literal that begins there is closed.
pub proof fn lemma_literal_closes(a: Seq<char>)
    requires
        a.len() > 0,
        a[0] == '"',
        !ends_in_literal(a),
    ensures
        run_len(a.skip(1), CharClass::Unquoted) < a.skip(1).len(),
{
    let body = a.skip(1);
    lemma_run_len(body, CharClass::Unquoted);
    if run_len(body, CharClass::Unquoted) >= body.len() {
        assert(body.take(body.len() as int) =~= body);
        lemma_quotes_none(body);
    }
}

/// What follows a text does not change the first step of the scanner on
/// it, unless the text stops inside a literal or runs together with what
/// follows.
pub proof fn lemma_step_concat(a: Seq<char>, b: Seq<char>)
    requires
        a.len() > 0,
        !ends_in_literal(a),
        !glued(a, b),
    ensures
        step_len(a + b) == step_len(a),
        step_token(a + b) == step_token(a),
{
    let ab = a + b;
    let c = a[0];
    if CharClass::Letter.contains(c) {
        lemma_run_len(a, CharClass::Letter);
        let n = run_len(a, CharClass::Letter) as int;
        if n == a.len() {
            assert(a.take(n)[n - 1] == a.last());
        }
        lemma_run_len_concat(a, b, CharClass::Letter);
        assert(ab.take(n) =~= a.take(n));
    } else if CharClass::Digit.contains(c) {
        lemma_run_len(a, CharClass::Digit);
        let n = run_len(a, CharClass::Digit) as int;
        lemma_run_len_concat(a, b, CharClass::Digit);
        assert(ab.take(n) =~= a.take(n));
    } else if c == '"' {
        let body = a.skip(1);
        lemma_literal_closes(a);
        assert(ab.skip(1) =~= body + b);
        lemma_run_len_concat(body, b, CharClass::Unquoted);
        let m = run_len(body, CharClass::Unquoted) as int;
        assert((body + b).take(m) =~= body.take(m));
    }
}

/// The tokens of two texts side by side are the tokens of the first and
/// then those of the second, unless the first stops inside a literal or the
/// two run together.
pub proof fn lemma_tokens_concat(a: Seq<char>, b: Seq<char>)
    requires
        !ends_in_literal(a),
        !glued(a, b),
    ensures
        tokens_of(a + b) == join(tokens_of(a), tokens_of(b)),
    decreases a.len(),
{
    let ab = a + b;
    if a.len() > 0 {
        lemma_step_len(a);
        lemma_step_concat(a, b);
        lemma_step_keeps_literals_whole(a);
        let n = step_len(a) as int;
        let rest = a.skip(n);
        assert(ab.skip(n) =~= rest + b);
        lemma_tokens_concat(rest, b);
        match step_token(a) {
            Ok(Some(token)) => {
                match tokens_of(rest) {
                    Ok(tail) => {
                        lemma_prepend(seq![token], tail, tokens_of(b));
                    },
                    Err(_) => {},
                }
            },
            _ => {},
        }
    }
}

/// The scanner refuses a text for one reason only.
pub proof fn lemma_only_numbers_refused(s: Seq<char>)
    ensures
        tokens_of(s) matches Err(e) ==> e == CompileError::MalformedInteger,
    decreases s.len(),
{
    if s.len() > 0 {
        lemma_step_len(s);
        lemma_only_numbers_refused(s.skip(step_len(s) as int));
    }
}

/// Whitespace holds no token.
pub proof fn lemma_tokens_of_whitespace(w: Seq<char>)
    requires
        all_whitespace(w),
    ensures
        tokens_of(w) == nothing::<TokenView>(),
    decreases w.len(),
{
    if w.len() > 0 {
        lemma_tokens_of_whitespace(w.skip(1));
    }
}

/// A word on its own is one token.
pub proof fn lemma_tokens_of_word(word: Seq<char>)
    requires
        word.len() > 0,
        all_in(word, CharClass::Letter),
    ensures
        tokens_of(word) == only(word_token(word)),
{
    let n = word.len() as int;
    assert(word.take(n) =~= word);
    lemma_run_len_is(word, CharClass::Letter, word.len());
    assert(tokens_of(word.skip(n)) == nothing::<TokenView>());
}

/// A run of digits on its own is one number, or is refused where the
/// number is above `i32::MAX`.
pub proof fn lemma_tokens_of_number(digits: Seq<char>)
    requires
        digits.len() > 0,
        all_in(digits, CharClass::Digit),
    ensures
        decimal_value(digits) <= i32::MAX ==> tokens_of(digits) == only(
            TokenView::IntLiteral(decimal_value(digits) as int),
        ),
        decimal_value(digits) > i32::MAX ==> tokens_of(digits) == Err::<
            Seq<TokenView>,
            CompileError,
        >(CompileError::MalformedInteger),
{
    let n = digits.len() as int;
    assert(digits.take(n) =~= digits);
    lemma_run_len_is(digits, CharClass::Digit, digits.len());
    assert(tokens_of(digits.skip(n)) == nothing::<TokenView>());
}

/// A text without quotation marks, put between two, is one string literal.
pub proof fn lemma_tokens_of_quoted(text: Seq<char>)
    requires
        all_in(text, CharClass::Unquoted),
    ensures
        tokens_of(quoted(text)) == only(TokenView::StringLiteral(text)),
        quotes(quoted(text)) == 2,
{
    let s = quoted(text);
    let body = s.skip(1);
    let n = text.len() as int;
    assert(body.take(n) =~= text);
    lemma_run_len_is(body, CharClass::Unquoted, text.len());
    assert(tokens_of(s.skip(n + 2)) == nothing::<TokenView>());
    lemma_quotes_none(text);
    lemma_quotes_concat(seq!['"'] + text, seq!['"']);
    lemma_quotes_concat(seq!['"'], text);
    assert(quotes(seq!['"']) == 1) by {
        assert(quotes(seq!['"'].skip(1)) == 0);
    }
}

/// One character on its own: its mark where it is one of the four marks,
/// and nothing where it is no mark, letter, digit or quotation mark.
pub proof fn lemma_tokens_of_char(c: char)
    requires
        !is_letter(c),
        !is_digit(c),
        c != '"',
    ensures
        mark_token(c) matches Some(mark) ==> tokens_of(seq![c]) == only(mark),
        mark_token(c) is None ==> tokens_of(seq![c]) == nothing::<TokenView>(),
        quotes(seq![c]) == 0,
{
    let s = seq![c];
    assert(tokens_of(s.skip(1)) == nothing::<TokenView>());
    assert(quotes(s.skip(1)) == 0);
}

/// Whitespace between two tokens counts for nothing: with any whitespace
/// `w` between `a` and `b`, the tokens are those of `a` and then those of
/// `b`. Between a text that ends and a text that begins with letters, or
/// with digits, there has to be some; and `a` must not stop inside a string
/// literal, where whitespace is part of the text.
pub proof fn lemma_whitespace_separates(a: Seq<char>, w: Seq<char>, b: Seq<char>)
    requires
        !ends_in_literal(a),
        all_whitespace(w),
        w.len() > 0 || !glued(a, b),
    ensures
        tokens_of(a + w + b) == join(tokens_of(a), tokens_of(b)),
{
    if w.len() == 0 {
        lemma_tokens_concat(a, b);
    } else {
        assert(a + w + b =~= a + (w + b));
        lemma_tokens_concat(a, w + b);
        assert(all_in(w, CharClass::Unquoted));
        lemma_quotes_none(w);
        lemma_tokens_concat(w, b);
        lemma_tokens_of_whitespace(w);
    }
}

/// Any amount of whitespace between two tokens gives the same tokens: one
/// stretch of whitespace may be replaced by another, and by none where the
/// texts on its two sides do not run together.
pub proof fn law_whitespace_between_tokens(
    a: Seq<char>,
    w1: Seq<char>,
    w2: Seq<char>,
    b: Seq<char>,
)
    requires
        !ends_in_literal(a),
        all_whitespace(w1),
        all_whitespace(w2),
        w1.len() > 0 || !glued(a, b),
        w2.len() > 0 || !glued(a, b),
    ensures
        tokens_of(a + w1 + b) == tokens_of(a + w2 + b),
{
    lemma_whitespace_separates(a, w1, b);
    lemma_whitespace_separates(a, w2, b);
}

/// A number above `i32::MAX` is refused wherever it stands as a number:
/// after a text that neither stops inside a literal nor ends with a digit,
/// and before a text that does not begin with one.
pub proof fn law_large_number_refused(a: Seq<char>, digits: Seq<char>, b: Seq<char>)
    requires
        !ends_in_literal(a),
        a.len() == 0 || !is_digit(a.last()),
        digits.len() > 0,
        all_in(digits, CharClass::Digit),
        decimal_value(digits) > i32::MAX,
        b.len() == 0 || !is_digit(b[0]),
    ensures
        tokens_of(a + digits + b) == Err::<Seq<TokenView>, CompileError>(
            CompileError::MalformedInteger,
        ),
{
    assert(a + digits + b =~= a + (digits + b));
    lemma_tokens_concat(a, digits + b);
    assert(all_in(digits, CharClass::Unquoted));
    lemma_quotes_none(digits);
    lemma_tokens_concat(digits, b);
    lemma_tokens_of_number(digits);
    lemma_only_numbers_refused(a);
}

/// Whether `digits`, between the texts `a` and `b`, stands as a number
/// above `i32::MAX`: `a` neither stops inside a literal nor ends with a
/// digit, `digits` are digits and write such a number, and `b` does not
/// begin with a digit.
pub open spec fn large_number_between(a: Seq<char>, digits: Seq<char>, b: Seq<char>) -> bool {
    &&& !ends_in_literal(a)
    &&& (a.len() == 0 || !is_digit(a.last()))
    &&& digits.len() > 0
    &&& all_in(digits, CharClass::Digit)
    &&& decimal_value(digits) > i32::MAX
    &&& (b.len() == 0 || !is_digit(b[0]))
}

/// Whether a text holds, outside its string literals, a number above
/// `i32::MAX`.
pub open spec fn holds_large_number(s: Seq<char>) -> bool {
    exists|a: Seq<char>, digits: Seq<char>, b: Seq<char>|
        s == a + digits + b && #[trigger] large_number_between(a, digits, b)
}

/// The characters of one step hold no quotation mark, or the two of a
/// closed literal, where the step does not reach the end of the text.
proof fn lemma_step_is_whole(s: Seq<char>)
    requires
        0 < step_len(s) < s.len(),
    ensures
        !ends_in_literal(s.take(step_len(s) as int)),
        !is_digit(s[step_len(s) - 1]) || !is_digit(s[step_len(s) as int]),
{
    let n = step_len(s) as int;
    let taken = s.take(n);
    let c = s[0];
    if CharClass::Letter.contains(c) {
        lemma_run_len(s, CharClass::Letter);
        assert forall|i: int| 0 <= i < n implies CharClass::Unquoted.contains(
            #[trigger] taken[i],
        ) by {
            assert(CharClass::Letter.contains(taken[i]));
        }
        lemma_quotes_none(taken);
        assert(CharClass::Letter.contains(taken[n - 1]));
        assert(taken[n - 1] == s[n - 1]);
    } else if CharClass::Digit.contains(c) {
        lemma_run_len(s, CharClass::Digit);
        assert forall|i: int| 0 <= i < n implies CharClass::Unquoted.contains(
            #[trigger] taken[i],
        ) by {
            assert(CharClass::Digit.contains(taken[i]));
        }
        lemma_quotes_none(taken);
        assert(!CharClass::Digit.contains(s[n]));
    } else if c == '"' {
        let body = s.skip(1);
        lemma_run_len(body, CharClass::Unquoted);
        let m = run_len(body, CharClass::Unquoted) as int;
        assert(n == m + 2);
        assert(body[m] == '"');
        assert(s[n - 1] == body[m]);
        let text = body.take(m);
        lemma_tokens_of_quoted(text);
        assert(taken =~= quoted(text));
    } else {
        assert(taken.skip(1) =~= Seq::<char>::empty());
        assert(quotes(taken.skip(1)) == 0);
        assert(taken[0] == c);
    }
}

/// A text that the scanner refuses holds a number above `i32::MAX`: the
/// texts before it, of it and behind it.
proof fn lemma_refused_holds_large_number(s: Seq<char>) -> (found: (
    Seq<char>,
    Seq<char>,
    Seq<char>,
))
    requires
        tokens_of(s) is Err,
    ensures
        s == found.0 + found.1 + found.2,
        large_number_between(found.0, found.1, found.2),
    decreases s.len(),
{
    lemma_step_len(s);
    let n = step_len(s) as int;
    let rest = s.skip(n);
    if step_token(s) is Err {
        lemma_run_len(s, CharClass::Digit);
        let none = Seq::<char>::empty();
        assert(s =~= none + s.take(n) + rest);
        assert(n < s.len() ==> rest[0] == s[n]);
        (none, s.take(n), rest)
    } else {
        assert(tokens_of(rest) is Err);
        let (a, digits, b) = lemma_refused_holds_large_number(rest);
        assert(rest.len() > 0);
        lemma_step_is_whole(s);
        let taken = s.take(n);
        lemma_quotes_concat(taken, a);
        assert(s =~= taken + a + digits + b) by {
            assert(s =~= taken + rest);
            assert(taken + (a + digits + b) =~= taken + a + digits + b);
        }
        if a.len() == 0 {
            assert((taken + a).last() == s[n - 1]);
            assert(rest[0] == digits[0]);
            assert(rest[0] == s[n]);
            assert(CharClass::Digit.contains(digits[0]));
        } else {
            assert((taken + a).last() == a.last());
        }
        (taken + a, digits, b)
    }
}

/// The scanner refuses a text exactly where the text holds, outside its
/// string literals, a number above `i32::MAX`.
pub proof fn law_refused_exactly_for_large_number(s: Seq<char>)
    ensures
        tokens_of(s) is Err <==> holds_large_number(s),
{
    if tokens_of(s) is Err {
        let (a, digits, b) = lemma_refused_holds_large_number(s);
        assert(large_number_between(a, digits, b));
    }
    if holds_large_number(s) {
        let (a, digits, b) = choose|a: Seq<char>, digits: Seq<char>, b: Seq<char>|
            s == a + digits + b && #[trigger] large_number_between(a, digits, b);
        law_large_number_refused(a, digits, b);
    }
}

} // verus!
