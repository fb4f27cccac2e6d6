//! Templates: the text of a printed string, in which a name between braces
//! stands for the value of that name.
//!
//! A template is cut at every `{` and every `}`. Each piece that is an
//! identifier, scanned on its own, names a placeholder, and every `{name}`
//! in the template becomes the JavaScript splice `${name}`. Each occurrence
//! is spliced once, however often the template holds the name.
//!
//! [`interpolated`] says what the result is; [`rewritten`] is the way in
//! which [`interpolate`] gets there, one segment after the other, passing
//! over a segment that has stood in the template before.

use crate::lexer::{is_identifier, lex_chars, tokens_of};
use crate::occurrences::law_rewriting_splices_once;
use crate::outcome::CompileError;
use crate::text::{lemma_run_len, run_len, run_of, spells, CharClass};
use crate::token::{Token, TokenView};
use vstd::prelude::*;
use vstd::slice::{slice_subrange, slice_to_vec};

verus! {

/// `text` with every occurrence of `pattern` replaced by `with`. The
/// occurrences are found from left to right and do not overlap; an empty
/// pattern occurs nowhere.
pub open spec fn replace_all(text: Seq<char>, pattern: Seq<char>, with: Seq<char>) -> Seq<char>
    decreases text.len(),
{
    if pattern.len() == 0 || text.len() < pattern.len() {
        text
    } else if text.take(pattern.len() as int) == pattern {
        with + replace_all(text.skip(pattern.len() as int), pattern, with)
    } else {
        seq![text[0]] + replace_all(text.skip(1), pattern, with)
    }
}

/// The pieces into which `{` and `}` cut a template: one more than it
/// holds braces, and empty where two braces meet or a brace stands at an end.
pub open spec fn segments_of(template: Seq<char>) -> Seq<Seq<char>>
    decreases template.len(),
{
    let n = run_len(template, CharClass::Unbraced);
    if n >= template.len() {
        seq![template]
    } else {
        seq![template.take(n as int)] + segments_of(template.skip(n as int + 1))
    }
}

/// Whether `tokens`, the tokens of `segment` scanned on its own, begin with
/// the identifier that is the whole segment.
pub open spec fn names_placeholder(segment: Seq<char>, tokens: Seq<TokenView>) -> bool {
    tokens.len() > 0 && tokens[0] == TokenView::Identifier(segment)
}

/// A name between braces, as a template writes it.
pub open spec fn placeholder(name: Seq<char>) -> Seq<char> {
    seq!['{'] + name + seq!['}']
}

/// The splice of a name in a JavaScript template literal.
pub open spec fn splice(name: Seq<char>) -> Seq<char> {
    seq!['$', '{'] + name + seq!['}']
}

/// The name of the placeholder with which `text` begins, where it begins
/// with one: with `{`, an identifier and `}`.
pub open spec fn leading_name(text: Seq<char>) -> Option<Seq<char>> {
    if text.len() > 0 && text[0] == '{' {
        let rest = text.skip(1);
        let n = run_len(rest, CharClass::Letter) as int;
        if n < rest.len() && rest[n] == '}' && is_identifier(rest.take(n)) {
            Some(rest.take(n))
        } else {
            None
        }
    } else {
        None
    }
}

/// `text` with every placeholder replaced by the splice of its name: the
/// text is read once from left to right, each `{name}` of which the name
/// is an identifier becomes `${name}`, and every other character is left as
/// it is.
pub open spec fn spliced(text: Seq<char>) -> Seq<char>
    decreases text.len(),
    via spliced_decreases
{
    if text.len() == 0 {
        text
    } else {
        match leading_name(text) {
            Some(name) => splice(name) + spliced(text.skip(name.len() as int + 2)),
            None => seq![text[0]] + spliced(text.skip(1)),
        }
    }
}

#[via_fn]
proof fn spliced_decreases(text: Seq<char>) {
    if text.len() > 0 {
        lemma_run_len(text.skip(1), CharClass::Letter);
    }
}

/// Whether the scanner refuses one of the segments of a template.
pub open spec fn refuses_segment(template: Seq<char>) -> bool {
    exists|i: int|
        0 <= i < segments_of(template).len() && tokens_of(
            #[trigger] segments_of(template)[i],
        ) is Err
}

/// The template with its placeholders spliced: each `{name}` of which the
/// name is an identifier has become `${name}`, once, at the place where it
/// stands, and nothing else has changed. A template with a segment that
/// the scanner refuses is refused as that segment is.
pub open spec fn interpolated(template: Seq<char>) -> Result<Seq<char>, CompileError> {
    if refuses_segment(template) {
        Err(CompileError::MalformedInteger)
    } else {
        Ok(spliced(template))
    }
}

/// Whether the segment at place `k` stands among the segments before it.
pub open spec fn seen_before(segments: Seq<Seq<char>>, k: int) -> bool {
    exists|j: int| 0 <= j < k && #[trigger] segments[j] == segments[k]
}

/// The way in which a template is rewritten, segment by segment: `text`
/// after the placeholders of the segments from place `from` on were
/// spliced, or `MalformedInteger` where one of these segments cannot be
/// scanned. The segments are taken in their order; one that names a
/// placeholder has every `{name}` in the text replaced, unless the same
/// segment stood before it, and has had them replaced already.
pub open spec fn rewritten(text: Seq<char>, segments: Seq<Seq<char>>, from: int) -> Result<
    Seq<char>,
    CompileError,
>
    decreases segments.len() - from,
{
    if from < 0 || from >= segments.len() {
        Ok(text)
    } else {
        match tokens_of(segments[from]) {
            Ok(tokens) => rewritten(
                if names_placeholder(segments[from], tokens) && !seen_before(segments, from) {
                    replace_all(text, placeholder(segments[from]), splice(segments[from]))
                } else {
                    text
                },
                segments,
                from + 1,
            ),
            Err(e) => Err(e),
        }
    }
}

/// The texts that vectors of characters hold.
pub open spec fn texts(parts: Seq<Vec<char>>) -> Seq<Seq<char>> {
    Seq::new(parts.len(), |i: int| parts[i]@)
}

/// Whether two texts are the same.
fn same(a: &[char], b: &[char]) -> (equal: bool)
    ensures
        equal == (a@ == b@),
{
    if a.len() != b.len() {
        return false;
    }
    let mut i: usize = 0;
    while i < a.len()
        invariant
            i <= a.len(),
            a.len() == b.len(),
            a@.take(i as int) == b@.take(i as int),
        decreases a.len() - i,
    {
        if a[i] != b[i] {
            return false;
        }
        assert(a@.take(i + 1) =~= a@.take(i as int).push(a@[i as int]));
        assert(b@.take(i + 1) =~= b@.take(i as int).push(b@[i as int]));
        i += 1;
    }
    assert(a@.take(i as int) =~= a@);
    assert(b@.take(i as int) =~= b@);
    true
}

/// Whether the part at place `k` stands among the parts before it.
fn seen(parts: &Vec<Vec<char>>, k: usize) -> (found: bool)
    requires
        k < parts.len(),
    ensures
        found == seen_before(texts(parts@), k as int),
{
    let mut j: usize = 0;
    while j < k
        invariant
            j <= k < parts.len(),
            forall|i: int| 0 <= i < j ==> #[trigger] texts(parts@)[i] != texts(parts@)[k as int],
        decreases k - j,
    {
        if same(parts[j].as_slice(), parts[k].as_slice()) {
            assert(texts(parts@)[j as int] == texts(parts@)[k as int]);
            return true;
        }
        j += 1;
    }
    false
}

/// Cuts a template at every `{` and every `}`.
pub fn split(template: &[char]) -> (parts: Vec<Vec<char>>)
    ensures
        texts(parts@) == segments_of(template@),
{
    let mut parts: Vec<Vec<char>> = Vec::new();
    let mut start: usize = 0;
    assert(template@.skip(0) =~= template@);
    assert(texts(parts@) + segments_of(template@) =~= segments_of(template@));
    loop
        invariant
            start <= template.len(),
            segments_of(template@) == texts(parts@) + segments_of(template@.skip(start as int)),
        decreases template.len() - start,
    {
        let ghost before = texts(parts@);
        let rest = slice_subrange(template, start, template.len());
        let n = run_of(rest, CharClass::Unbraced);
        proof {
            lemma_run_len(rest@, CharClass::Unbraced);
        }
        let segment = slice_to_vec(slice_subrange(rest, 0, n));
        assert(segment@ =~= rest@.take(n as int));
        parts.push(segment);
        assert(texts(parts@) =~= before + seq![segment@]);
        if n >= rest.len() {
            assert(rest@.take(n as int) =~= rest@);
            assert(texts(parts@) =~= before + segments_of(rest@));
            return parts;
        }
        assert(rest@.skip(n + 1) =~= template@.skip(start + n + 1));
        assert(before + (seq![segment@] + segments_of(rest@.skip(n + 1))) =~= texts(parts@)
            + segments_of(rest@.skip(n + 1)));
        start = start + n + 1;
    }
}

/// Whether `pattern` stands in `text` at place `at`.
fn occurs_at(text: &[char], at: usize, pattern: &[char]) -> (b: bool)
    requires
        at <= text.len(),
    ensures
        b == (pattern.len() <= text.len() - at && text@.skip(at as int).take(pattern.len() as int)
            == pattern@),
{
    if pattern.len() > text.len() - at {
        return false;
    }
    let ghost window = text@.skip(at as int).take(pattern.len() as int);
    let mut k: usize = 0;
    while k < pattern.len()
        invariant
            k <= pattern.len() <= text.len() - at,
            window == text@.skip(at as int).take(pattern.len() as int),
            window.take(k as int) == pattern@.take(k as int),
        decreases pattern.len() - k,
    {
        if text[at + k] != pattern[k] {
            return false;
        }
        k += 1;
    }
    assert(window.take(k as int) =~= window);
    assert(pattern@.take(k as int) =~= pattern@);
    true
}

/// Replaces every occurrence of `pattern` in `text` by `with`.
pub fn replace(text: &[char], pattern: &[char], with: &[char]) -> (out: Vec<char>)
    ensures
        out@ == replace_all(text@, pattern@, with@),
{
    let mut out: Vec<char> = Vec::new();
    let mut i: usize = 0;
    assert(text@.skip(0) =~= text@);
    while i < text.len()
        invariant
            i <= text.len(),
            replace_all(text@, pattern@, with@) == out@ + replace_all(
                text@.skip(i as int),
                pattern@,
                with@,
            ),
        decreases text.len() - i,
    {
        let ghost rest = text@.skip(i as int);
        let ghost done = out@;
        if pattern.len() > 0 && occurs_at(text, i, pattern) {
            let mut k: usize = 0;
            while k < with.len()
                invariant
                    k <= with.len(),
                    out@ == done + with@.take(k as int),
                decreases with.len() - k,
            {
                out.push(with[k]);
                k += 1;
            }
            assert(rest.skip(pattern.len() as int) =~= text@.skip(i + pattern.len()));
            i += pattern.len();
        } else {
            out.push(text[i]);
            assert(rest.skip(1) =~= text@.skip(i + 1));
            i += 1;
        }
    }
    out
}

/// The template with its placeholders spliced, or `MalformedInteger` where
/// one of its segments cannot be scanned.
pub fn interpolate(template: &[char]) -> (result: Result<Vec<char>, CompileError>)
    ensures
        result matches Ok(text) ==> interpolated(template@) == Ok::<Seq<char>, CompileError>(
            text@,
        ),
        result matches Err(e) ==> interpolated(template@) == Err::<Seq<char>, CompileError>(e),
{
    let parts = split(template);
    let ghost segments = segments_of(template@);
    proof {
        law_rewriting_splices_once(template@);
    }
    let mut text = slice_to_vec(template);
    let mut k: usize = 0;
    while k < parts.len()
        invariant
            k <= parts.len(),
            texts(parts@) == segments,
            interpolated(template@) == rewritten(text@, segments, k as int),
        decreases parts.len() - k,
    {
        let segment = parts[k].as_slice();
        assert(segment@ == segments[k as int]);
        let tokens = match lex_chars(segment) {
            Ok(tokens) => tokens,
            Err(e) => {
                return Err(e);
            },
        };
        let named = tokens.len() > 0 && match &tokens[0] {
            Token::Identifier(name) => spells(segment, name.as_str()),
            _ => false,
        };
        assert(named == names_placeholder(segment@, tokens.deep_view())) by {
            if tokens.len() > 0 {
                assert(tokens.deep_view()[0] == tokens[0]@);
            }
        }
        if named && !seen(&parts, k) {
            let mut pattern: Vec<char> = Vec::new();
            let mut with: Vec<char> = Vec::new();
            pattern.push('{');
            with.push('$');
            with.push('{');
            let mut j: usize = 0;
            while j < segment.len()
                invariant
                    j <= segment.len(),
                    pattern@ == seq!['{'] + segment@.take(j as int),
                    with@ == seq!['$', '{'] + segment@.take(j as int),
                decreases segment.len() - j,
            {
                pattern.push(segment[j]);
                with.push(segment[j]);
                j += 1;
            }
            pattern.push('}');
            with.push('}');
            assert(pattern@ =~= placeholder(segment@));
            assert(with@ =~= splice(segment@));
            text = replace(text.as_slice(), pattern.as_slice(), with.as_slice());
        }
        k += 1;
    }
    Ok(text)
}

} // verus!
