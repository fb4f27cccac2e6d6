//! What holds of every template: which segments name a placeholder, which
//! templates are left as they are, and what becomes of a template with one
//! pair of braces.

use crate::lexer::{is_identifier, step_len, step_token, tokens_of};
use crate::occurrences::law_rewriting_splices_once;
use crate::outcome::CompileError;
use crate::scanning::lemma_tokens_of_word;
use crate::template::{
    interpolated, names_placeholder, placeholder, replace_all, rewritten, seen_before, segments_of,
    splice,
};
use crate::text::{all_in, lemma_run_len, lemma_run_len_is, run_len, CharClass};
use crate::token::TokenView;
use vstd::prelude::*;

verus! {

/// Where the first token of a text is an identifier, its name is no longer
/// than the text, and as long only where the text is that identifier.
proof fn lemma_first_identifier(s: Seq<char>, name: Seq<char>)
    requires
        tokens_of(s) matches Ok(tokens) && tokens.len() > 0 && tokens[0] == TokenView::Identifier(
            name,
        ),
    ensures
        name.len() <= s.len(),
        name.len() == s.len() ==> name == s && is_identifier(s),
    decreases s.len(),
{
    let rest = s.skip(step_len(s) as int);
    match step_token(s) {
        Ok(Some(token)) => {
            lemma_run_len(s, CharClass::Letter);
            let n = run_len(s, CharClass::Letter) as int;
            if n == s.len() {
                assert(s.take(n) =~= s);
            }
        },
        Ok(None) => {
            lemma_first_identifier(rest, name);
        },
        Err(_) => {},
    }
}

/// A segment names a placeholder exactly where it is an identifier: the
/// scanner need not be asked, but for the segments that it refuses.
pub proof fn lemma_placeholder_is_identifier(segment: Seq<char>)
    ensures
        is_identifier(segment) <==> (tokens_of(segment) matches Ok(tokens) && names_placeholder(
            segment,
            tokens,
        )),
{
    if is_identifier(segment) {
        lemma_tokens_of_word(segment);
    }
    if let Ok(tokens) = tokens_of(segment) {
        if names_placeholder(segment, tokens) {
            lemma_first_identifier(segment, segment);
        }
    }
}

/// A text in which the first character of the pattern does not occur
/// before the place `n` is searched from that place on only.
pub proof fn lemma_replace_all_from(text: Seq<char>, n: int, pattern: Seq<char>, with: Seq<char>)
    requires
        0 <= n <= text.len(),
        pattern.len() > 0,
        forall|i: int| 0 <= i < n ==> text[i] != pattern[0],
    ensures
        replace_all(text, pattern, with) == text.take(n) + replace_all(text.skip(n), pattern, with),
    decreases n,
{
    if n == 0 {
        assert(text.skip(0) =~= text);
    } else {
        let rest = text.skip(1);
        lemma_replace_all_from(rest, n - 1, pattern, with);
        assert(rest.skip(n - 1) =~= text.skip(n));
    }
}

/// A text without the first character of the pattern is left as it is.
proof fn lemma_replace_all_absent(text: Seq<char>, pattern: Seq<char>, with: Seq<char>)
    requires
        pattern.len() > 0,
        forall|i: int| 0 <= i < text.len() ==> text[i] != pattern[0],
    ensures
        replace_all(text, pattern, with) == text,
{
    let n = text.len() as int;
    lemma_replace_all_from(text, n, pattern, with);
}

/// In a text with one pair of braces, round `name`, the placeholder of `x`
/// occurs once where `x` is `name`, and nowhere where it is not.
proof fn lemma_replace_in_one_pair(
    before: Seq<char>,
    name: Seq<char>,
    behind: Seq<char>,
    x: Seq<char>,
    with: Seq<char>,
)
    requires
        all_in(before, CharClass::Unbraced),
        all_in(name, CharClass::Unbraced),
        all_in(behind, CharClass::Unbraced),
        all_in(x, CharClass::Unbraced),
    ensures
        x == name ==> replace_all(before + placeholder(name) + behind, placeholder(x), with)
            == before + with + behind,
        x != name ==> replace_all(before + placeholder(name) + behind, placeholder(x), with)
            == before + placeholder(name) + behind,
{
    let text = before + placeholder(name) + behind;
    let pattern = placeholder(x);
    let n = before.len() as int;
    lemma_replace_all_from(text, n, pattern, with);
    let rest = text.skip(n);
    let m = pattern.len() as int;
    if x == name {
        assert(rest.take(m) =~= pattern);
        assert(rest.skip(m) =~= behind);
        lemma_replace_all_absent(behind, pattern, with);
    } else {
        let tail = rest.skip(1);
        lemma_replace_all_absent(tail, pattern, with);
        if rest.len() >= m {
            assert(rest.take(m) != pattern) by {
                if rest.take(m) == pattern {
                    let lx = x.len() as int;
                    let ln = name.len() as int;
                    if lx < ln {
                        assert(rest.take(m)[lx + 1] == name[lx]);
                    } else if lx > ln {
                        assert(rest.take(m)[ln + 1] == '}');
                    } else {
                        assert forall|i: int| 0 <= i < x.len() implies x[i] == name[i] by {
                            assert(rest.take(m)[i + 1] == name[i]);
                        }
                        assert(x =~= name);
                    }
                }
            }
        }
    }
}

/// The segments of a text with one pair of braces: what stands before the
/// pair, what stands in it, and what stands behind it.
proof fn lemma_segments_of_one_pair(before: Seq<char>, inside: Seq<char>, behind: Seq<char>)
    requires
        all_in(before, CharClass::Unbraced),
        all_in(inside, CharClass::Unbraced),
        all_in(behind, CharClass::Unbraced),
    ensures
        segments_of(before + placeholder(inside) + behind) == seq![before, inside, behind],
{
    let text = before + placeholder(inside) + behind;
    let n = before.len() as int;
    assert(text.take(n) =~= before);
    lemma_run_len_is(text, CharClass::Unbraced, before.len());
    let second = text.skip(n + 1);
    let k = inside.len() as int;
    assert(second.take(k) =~= inside);
    lemma_run_len_is(second, CharClass::Unbraced, inside.len());
    let third = second.skip(k + 1);
    assert(third =~= behind);
    lemma_run_len_is(third, CharClass::Unbraced, third.len());
    assert(segments_of(third) == seq![behind]);
    assert(segments_of(second) =~= seq![inside, behind]);
}

/// A template of which no segment names a placeholder is left as it is,
/// provided the scanner refuses none of its segments.
pub proof fn law_template_without_placeholder(template: Seq<char>)
    requires
        forall|i: int|
            0 <= i < segments_of(template).len() ==> tokens_of(
                #[trigger] segments_of(template)[i],
            ) is Ok && !is_identifier(segments_of(template)[i]),
    ensures
        interpolated(template) == Ok::<Seq<char>, CompileError>(template),
{
    law_rewriting_splices_once(template);
    lemma_rewritten_without_placeholder(template, segments_of(template), 0);
}

proof fn lemma_rewritten_without_placeholder(text: Seq<char>, segments: Seq<Seq<char>>, from: int)
    requires
        0 <= from,
        forall|i: int|
            from <= i < segments.len() ==> tokens_of(#[trigger] segments[i]) is Ok
                && !is_identifier(segments[i]),
    ensures
        rewritten(text, segments, from) == Ok::<Seq<char>, CompileError>(text),
    decreases segments.len() - from,
{
    if from < segments.len() {
        assert(tokens_of(segments[from]) is Ok);
        lemma_placeholder_is_identifier(segments[from]);
        lemma_rewritten_without_placeholder(text, segments, from + 1);
    }
}

/// A template with one pair of braces: where an identifier stands between
/// the braces, the pair becomes a splice of that name, and where anything
/// else stands there (digits, two words, nothing), the template is left as
/// it is. This holds where the scanner refuses none of the three segments.
pub proof fn law_one_pair_of_braces(before: Seq<char>, inside: Seq<char>, behind: Seq<char>)
    requires
        all_in(before, CharClass::Unbraced),
        all_in(inside, CharClass::Unbraced),
        all_in(behind, CharClass::Unbraced),
        tokens_of(before) is Ok,
        tokens_of(inside) is Ok,
        tokens_of(behind) is Ok,
    ensures
        is_identifier(inside) ==> interpolated(before + placeholder(inside) + behind) == Ok::<
            Seq<char>,
            CompileError,
        >(before + splice(inside) + behind),
        !is_identifier(inside) ==> interpolated(before + placeholder(inside) + behind) == Ok::<
            Seq<char>,
            CompileError,
        >(before + placeholder(inside) + behind),
{
    let template = before + placeholder(inside) + behind;
    let spliced = before + splice(inside) + behind;
    let segments = segments_of(template);
    law_rewriting_splices_once(template);
    lemma_segments_of_one_pair(before, inside, behind);
    lemma_placeholder_is_identifier(before);
    lemma_placeholder_is_identifier(inside);
    lemma_placeholder_is_identifier(behind);
    assert(segments[0] == before && segments[1] == inside && segments[2] == behind);
    // the segment before the braces: its placeholder occurs where it is the name between them
    lemma_replace_in_one_pair(before, inside, behind, before, splice(before));
    let first = if is_identifier(before) && before == inside {
        spliced
    } else {
        template
    };
    assert(!seen_before(segments, 0));
    assert(rewritten(template, segments, 0) == rewritten(first, segments, 1));
    // the segment between the braces, unless it is the segment before them again
    lemma_replace_in_one_pair(before, inside, behind, inside, splice(inside));
    let second = if is_identifier(inside) {
        spliced
    } else {
        template
    };
    assert(seen_before(segments, 1) <==> before == inside) by {
        if before == inside {
            assert(segments[0] == segments[1]);
        }
    }
    assert(rewritten(first, segments, 1) == rewritten(second, segments, 2));
    // the segment behind the braces: its placeholder does not occur, unless it was seen before
    assert(seen_before(segments, 2) <==> behind == before || behind == inside) by {
        if behind == before {
            assert(segments[0] == segments[2]);
        }
        if behind == inside {
            assert(segments[1] == segments[2]);
        }
    }
    if is_identifier(inside) {
        let dollar = before + seq!['$'];
        assert(all_in(dollar, CharClass::Unbraced));
        assert(second =~= dollar + placeholder(inside) + behind);
        lemma_replace_in_one_pair(dollar, inside, behind, behind, splice(behind));
    } else {
        lemma_replace_in_one_pair(before, inside, behind, behind, splice(behind));
    }
    assert(rewritten(second, segments, 2) == rewritten(second, segments, 3));
    assert(rewritten(second, segments, 3) == Ok::<Seq<char>, CompileError>(second));
}

/// A placeholder that a template holds twice is spliced once at each
/// place: `{name}{name}` becomes `${name}${name}`.
pub proof fn law_placeholder_twice(name: Seq<char>)
    requires
        is_identifier(name),
    ensures
        interpolated(placeholder(name) + placeholder(name)) == Ok::<Seq<char>, CompileError>(
            splice(name) + splice(name),
        ),
{
    let template = placeholder(name) + placeholder(name);
    let segments = segments_of(template);
    law_rewriting_splices_once(template);
    let none = Seq::<char>::empty();
    let n = name.len() as int;
    lemma_placeholder_is_identifier(name);
    lemma_placeholder_is_identifier(none);
    assert(all_in(name, CharClass::Unbraced)) by {
        assert forall|i: int| 0 <= i < name.len() implies CharClass::Unbraced.contains(
            #[trigger] name[i],
        ) by {
            assert(CharClass::Letter.contains(name[i]));
        }
    }
    // the five segments
    lemma_segments_of_one_pair(none, name, none);
    lemma_run_len_is(template, CharClass::Unbraced, 0);
    let second = template.skip(1);
    assert(second.take(n) =~= name);
    lemma_run_len_is(second, CharClass::Unbraced, name.len());
    let third = second.skip(n + 1);
    assert(third =~= none + placeholder(name) + none);
    assert(segments_of(third) == seq![none, name, none]);
    assert(segments_of(second) =~= seq![name] + segments_of(third));
    assert(template.take(0) =~= none);
    assert(template.skip(0int + 1) =~= second);
    assert(segments =~= seq![none] + segments_of(second));
    assert(segments =~= seq![none, name, none, name, none]);
    // the text after the first of them that names the placeholder
    let pattern = placeholder(name);
    let with = splice(name);
    assert(template.take(n + 2) =~= pattern);
    assert(template.skip(n + 2) =~= pattern);
    assert(pattern.take(n + 2) =~= pattern);
    assert(pattern.skip(n + 2) =~= none);
    assert(replace_all(pattern, pattern, with) =~= with + replace_all(none, pattern, with));
    assert(replace_all(template, pattern, with) =~= with + with);
    let text = with + with;
    assert(!seen_before(segments, 1));
    assert(seen_before(segments, 3)) by {
        assert(segments[1] == segments[3]);
    }
    assert(rewritten(template, segments, 0) == rewritten(template, segments, 1));
    assert(rewritten(template, segments, 1) == rewritten(text, segments, 2));
    assert(rewritten(text, segments, 2) == rewritten(text, segments, 3));
    assert(rewritten(text, segments, 3) == rewritten(text, segments, 4));
    assert(rewritten(text, segments, 4) == rewritten(text, segments, 5));
}

} // verus!
