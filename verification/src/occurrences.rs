//! Every placeholder of a template is spliced exactly once: the rewriting
//! segment by segment comes to the same as reading the template once and
//! replacing each `{name}` at the place where it stands.

use crate::lexer::{is_identifier, tokens_of};
use crate::outcome::CompileError;
use crate::scanning::lemma_only_numbers_refused;
use crate::splicing::{lemma_placeholder_is_identifier, lemma_replace_all_from};
use crate::template::{
    interpolated, leading_name, names_placeholder, placeholder, refuses_segment, replace_all,
    rewritten, seen_before, segments_of, splice, spliced,
};
use crate::text::{all_in, lemma_run_len, lemma_run_len_is, run_len, CharClass};
use vstd::prelude::*;

verus! {

/// `text` read once from left to right, with every placeholder of a name
/// among `names` replaced by the splice of that name, and every other
/// character left as it is: what the rewriting has reached when the
/// segments it has taken are `names`.
pub open spec fn spliced_among(text: Seq<char>, names: Set<Seq<char>>) -> Seq<char>
    decreases text.len(),
    via spliced_among_decreases
{
    if text.len() == 0 {
        text
    } else {
        match leading_name(text) {
            Some(name) => if names.contains(name) {
                splice(name) + spliced_among(text.skip(name.len() as int + 2), names)
            } else {
                seq![text[0]] + spliced_among(text.skip(1), names)
            },
            None => seq![text[0]] + spliced_among(text.skip(1), names),
        }
    }
}

#[via_fn]
proof fn spliced_among_decreases(text: Seq<char>, names: Set<Seq<char>>) {
    if text.len() > 0 {
        lemma_run_len(text.skip(1), CharClass::Letter);
    }
}

/// With every name to splice, each placeholder is spliced.
pub proof fn lemma_spliced_among_all(text: Seq<char>)
    ensures
        spliced_among(text, Set::full()) == spliced(text),
    decreases text.len(),
{
    if text.len() > 0 {
        match leading_name(text) {
            Some(name) => {
                lemma_leading_name(text, name);
                lemma_spliced_among_all(text.skip(name.len() as int + 2));
            },
            None => {
                lemma_spliced_among_all(text.skip(1));
            },
        }
    }
}

/// A text that begins with a placeholder is that placeholder and what
/// follows it, and the name is an identifier.
pub proof fn lemma_leading_name(text: Seq<char>, name: Seq<char>)
    requires
        leading_name(text) == Some(name),
    ensures
        is_identifier(name),
        name.len() + 2 <= text.len(),
        text == placeholder(name) + text.skip(name.len() as int + 2),
{
    let rest = text.skip(1);
    lemma_run_len(rest, CharClass::Letter);
    let n = name.len() as int;
    assert(text =~= placeholder(name) + text.skip(n + 2)) by {
        assert forall|i: int| 0 <= i < n implies #[trigger] text[i + 1] == name[i] by {
            assert(rest.take(n)[i] == rest[i]);
        }
        assert(text[n + 1] == rest[n]);
    }
}

/// A text made of a placeholder and what follows it begins with that
/// placeholder.
pub proof fn lemma_placeholder_leads(name: Seq<char>, behind: Seq<char>)
    requires
        is_identifier(name),
    ensures
        leading_name(placeholder(name) + behind) == Some(name),
{
    let text = placeholder(name) + behind;
    let rest = text.skip(1);
    let n = name.len() as int;
    assert(rest.take(n) =~= name);
    assert(rest[n] == '}');
    lemma_run_len_is(rest, CharClass::Letter, name.len());
}

/// Where the first `k` characters of a text are no `{`, they are left as
/// they are.
pub proof fn lemma_spliced_copies(text: Seq<char>, names: Set<Seq<char>>, k: int)
    requires
        0 <= k <= text.len(),
        forall|i: int| 0 <= i < k ==> text[i] != '{',
    ensures
        spliced_among(text, names) == text.take(k) + spliced_among(text.skip(k), names),
    decreases k,
{
    if k == 0 {
        assert(text.skip(0) =~= text);
        assert(text.take(0) + spliced_among(text, names) =~= spliced_among(text, names));
    } else {
        let rest = text.skip(1);
        assert forall|i: int| 0 <= i < k - 1 implies rest[i] != '{' by {
            assert(rest[i] == text[i + 1]);
        }
        lemma_spliced_copies(rest, names, k - 1);
        assert(rest.skip(k - 1) =~= text.skip(k));
        assert(seq![text[0]] + (rest.take(k - 1) + spliced_among(text.skip(k), names))
            =~= text.take(k) + spliced_among(text.skip(k), names));
    }
}

/// Where the first `k` characters of the result are no `$`, they are the
/// first `k` characters of the text.
pub proof fn lemma_spliced_began(text: Seq<char>, names: Set<Seq<char>>, k: int)
    requires
        0 <= k <= spliced_among(text, names).len(),
        forall|i: int| 0 <= i < k ==> spliced_among(text, names)[i] != '$',
    ensures
        k <= text.len(),
        text.take(k) == spliced_among(text, names).take(k),
    decreases k,
{
    let out = spliced_among(text, names);
    if k == 0 {
        assert(text.take(0) =~= out.take(0));
    } else {
        assert(text.len() > 0);
        let rest = text.skip(1);
        assert(out[0] != '$');
        assert(out == seq![text[0]] + spliced_among(rest, names)) by {
            match leading_name(text) {
                Some(name) => {
                    if names.contains(name) {
                        assert(out[0] == splice(name)[0]);
                    }
                },
                None => {},
            }
        }
        let tail = spliced_among(rest, names);
        assert forall|i: int| 0 <= i < k - 1 implies tail[i] != '$' by {
            assert(tail[i] == out[i + 1]);
        }
        lemma_spliced_began(rest, names, k - 1);
        assert(text.take(k) =~= seq![text[0]] + rest.take(k - 1));
        assert(out.take(k) =~= seq![text[0]] + tail.take(k - 1));
    }
}

/// The placeholder of one name is no occurrence of the placeholder of
/// another: a text that begins with the first is searched behind it.
pub proof fn lemma_replace_past_placeholder(
    name: Seq<char>,
    behind: Seq<char>,
    x: Seq<char>,
    with: Seq<char>,
)
    requires
        all_in(name, CharClass::Unbraced),
        all_in(x, CharClass::Unbraced),
        name != x,
    ensures
        replace_all(placeholder(name) + behind, placeholder(x), with) == placeholder(name)
            + replace_all(behind, placeholder(x), with),
{
    let text = placeholder(name) + behind;
    let pattern = placeholder(x);
    let m = pattern.len() as int;
    let ln = name.len() as int;
    let lx = x.len() as int;
    let tail = text.skip(1);
    assert(tail =~= name + seq!['}'] + behind);
    assert forall|i: int| 0 <= i < ln + 1 implies tail[i] != pattern[0] by {
        if i < ln {
            assert(CharClass::Unbraced.contains(name[i]));
        }
    }
    lemma_replace_all_from(tail, ln + 1, pattern, with);
    assert(tail.take(ln + 1) =~= name + seq!['}']);
    assert(tail.skip(ln + 1) =~= behind);
    if text.len() >= m {
        assert(text.take(m) != pattern) by {
            if text.take(m) == pattern {
                if lx < ln {
                    assert(text.take(m)[lx + 1] == name[lx]);
                    assert(pattern[lx + 1] == '}');
                    assert(CharClass::Unbraced.contains(name[lx]));
                } else if lx > ln {
                    assert(text.take(m)[ln + 1] == '}');
                    assert(pattern[ln + 1] == x[ln]);
                    assert(CharClass::Unbraced.contains(x[ln]));
                } else {
                    assert forall|i: int| 0 <= i < lx implies x[i] == name[i] by {
                        assert(text.take(m)[i + 1] == name[i]);
                        assert(pattern[i + 1] == x[i]);
                    }
                    assert(x =~= name);
                }
            }
        }
        assert(seq![text[0]] + (name + seq!['}'] + replace_all(behind, pattern, with))
            =~= placeholder(name) + replace_all(behind, pattern, with));
    } else {
        // too short to hold the pattern: so is what stands behind
        assert(replace_all(behind, pattern, with) == behind);
    }
}

/// Replacing the placeholders of one more name in a text in which those of
/// some names are spliced gives the text in which those of all of them are.
pub proof fn lemma_one_more_name(text: Seq<char>, names: Set<Seq<char>>, x: Seq<char>)
    requires
        is_identifier(x),
        !names.contains(x),
    ensures
        replace_all(spliced_among(text, names), placeholder(x), splice(x)) == spliced_among(
            text,
            names.insert(x),
        ),
    decreases text.len(),
{
    let pattern = placeholder(x);
    let with = splice(x);
    let more = names.insert(x);
    let out = spliced_among(text, names);
    lemma_letters_are_unbraced(x);
    if text.len() > 0 {
        match leading_name(text) {
            Some(name) => {
                lemma_leading_name(text, name);
                lemma_letters_are_unbraced(name);
                let behind = text.skip(name.len() as int + 2);
                lemma_one_more_name(behind, names, x);
                let rest = spliced_among(behind, names);
                if names.contains(name) {
                    // `$` and then the placeholder of another name
                    assert(out == splice(name) + rest);
                    let inner = placeholder(name) + rest;
                    assert(out =~= seq!['$'] + inner);
                    lemma_replace_all_from(out, 1, pattern, with);
                    assert(out.skip(1) =~= inner);
                    lemma_replace_past_placeholder(name, rest, x, with);
                    assert(seq!['$'] + (placeholder(name) + replace_all(rest, pattern, with))
                        =~= splice(name) + replace_all(rest, pattern, with));
                    assert(out.take(1) =~= seq!['$']);
                } else {
                    // the placeholder is left as it is
                    let tail = text.skip(1);
                    let k = name.len() as int + 1;
                    assert(tail =~= name + seq!['}'] + behind);
                    assert forall|i: int| 0 <= i < k implies tail[i] != '{' by {
                        if i < name.len() {
                            assert(CharClass::Unbraced.contains(name[i]));
                        }
                    }
                    lemma_spliced_copies(tail, names, k);
                    assert(tail.take(k) =~= name + seq!['}']);
                    assert(tail.skip(k) =~= behind);
                    assert(out =~= placeholder(name) + rest);
                    if name == x {
                        assert(out.take(pattern.len() as int) =~= pattern);
                        assert(out.skip(pattern.len() as int) =~= rest);
                    } else {
                        lemma_replace_past_placeholder(name, rest, x, with);
                        lemma_spliced_copies(tail, more, k);
                        assert(spliced_among(text, more) =~= placeholder(name) + spliced_among(
                            behind,
                            more,
                        ));
                    }
                }
            },
            None => {
                let tail = text.skip(1);
                lemma_one_more_name(tail, names, x);
                let rest = spliced_among(tail, names);
                assert(out == seq![text[0]] + rest);
                assert(out.skip(1) =~= rest);
                assert(out.take(1) =~= seq![text[0]]);
                if text[0] != '{' {
                    lemma_replace_all_from(out, 1, pattern, with);
                } else {
                    let m = pattern.len() as int;
                    if out.len() >= m {
                        assert(out.take(m) != pattern) by {
                            if out.take(m) == pattern {
                                let k = x.len() as int + 1;
                                assert forall|i: int| 0 <= i < k implies rest[i] != '$' by {
                                    assert(rest[i] == out.take(m)[i + 1]);
                                    if i < x.len() {
                                        assert(CharClass::Letter.contains(x[i]));
                                    }
                                }
                                lemma_spliced_began(tail, names, k);
                                assert(text =~= placeholder(x) + text.skip(k + 1)) by {
                                    assert forall|i: int| 0 <= i < k implies #[trigger] text[i + 1]
                                        == pattern[i + 1] by {
                                        assert(tail.take(k)[i] == rest.take(k)[i]);
                                        assert(rest[i] == out.take(m)[i + 1]);
                                    }
                                }
                                lemma_placeholder_leads(x, text.skip(k + 1));
                            }
                        }
                    } else {
                        assert(replace_all(rest, pattern, with) == rest);
                    }
                }
            },
        }
    }
}

/// Letters are no braces.
pub proof fn lemma_letters_are_unbraced(word: Seq<char>)
    requires
        all_in(word, CharClass::Letter),
    ensures
        all_in(word, CharClass::Unbraced),
{
    assert forall|i: int| 0 <= i < word.len() implies CharClass::Unbraced.contains(
        #[trigger] word[i],
    ) by {
        assert(CharClass::Letter.contains(word[i]));
    }
}

/// The identifiers among the first `k` segments.
pub open spec fn names_before(segments: Seq<Seq<char>>, k: int) -> Set<Seq<char>> {
    Set::new(
        |name: Seq<char>|
            is_identifier(name) && exists|j: int| 0 <= j < k && #[trigger] segments[j] == name,
    )
}

/// With the placeholders of the first `k` segments spliced, the rewriting
/// of the segments from `k` on splices those of all segments.
proof fn lemma_rewritten_is_spliced(text: Seq<char>, segments: Seq<Seq<char>>, k: int)
    requires
        0 <= k <= segments.len(),
        forall|i: int| 0 <= i < segments.len() ==> tokens_of(#[trigger] segments[i]) is Ok,
    ensures
        rewritten(spliced_among(text, names_before(segments, k)), segments, k) == Ok::<
            Seq<char>,
            CompileError,
        >(spliced_among(text, names_before(segments, segments.len() as int))),
    decreases segments.len() - k,
{
    if k < segments.len() {
        let x = segments[k];
        let now = names_before(segments, k);
        let next = names_before(segments, k + 1);
        assert(tokens_of(x) is Ok);
        lemma_placeholder_is_identifier(x);
        if is_identifier(x) && !seen_before(segments, k) {
            assert(!now.contains(x));
            lemma_one_more_name(text, now, x);
            assert(next =~= now.insert(x)) by {
                assert forall|name: Seq<char>| next.contains(name) <==> now.insert(x).contains(
                    name,
                ) by {
                    if name == x {
                        assert(segments[k] == name);
                    }
                }
            }
        } else {
            assert(next =~= now) by {
                assert forall|name: Seq<char>| next.contains(name) implies now.contains(name) by {
                    let j = choose|j: int| 0 <= j < k + 1 && #[trigger] segments[j] == name;
                    if j == k {
                        let i = choose|i: int| 0 <= i < k && #[trigger] segments[i] == segments[k];
                        assert(segments[i] == name);
                    }
                }
            }
        }
        lemma_rewritten_is_spliced(text, segments, k + 1);
    }
}

/// The rewriting fails exactly where the scanner refuses one of the
/// segments it has still to take, and for the scanner's one reason.
proof fn lemma_rewritten_refused(text: Seq<char>, segments: Seq<Seq<char>>, k: int)
    requires
        0 <= k <= segments.len(),
    ensures
        rewritten(text, segments, k) is Err <==> exists|i: int|
            k <= i < segments.len() && tokens_of(#[trigger] segments[i]) is Err,
        rewritten(text, segments, k) matches Err(e) ==> e == CompileError::MalformedInteger,
    decreases segments.len() - k,
{
    if k < segments.len() {
        lemma_only_numbers_refused(segments[k]);
        match tokens_of(segments[k]) {
            Ok(tokens) => {
                let next = if names_placeholder(segments[k], tokens)
                    && !seen_before(segments, k) {
                    replace_all(text, placeholder(segments[k]), splice(segments[k]))
                } else {
                    text
                };
                lemma_rewritten_refused(next, segments, k + 1);
            },
            Err(_) => {},
        }
    }
}

/// Whether two sets of names agree on the name of the placeholder that
/// stands at place `p` of `text`, if one stands there.
pub open spec fn agree_at(text: Seq<char>, p: int, a: Set<Seq<char>>, b: Set<Seq<char>>) -> bool {
    leading_name(text.skip(p)) matches Some(name) ==> (a.contains(name) <==> b.contains(name))
}

/// Two sets of names that agree on the names of the placeholders of a text
/// give the same text.
proof fn lemma_names_suffice(text: Seq<char>, a: Set<Seq<char>>, b: Set<Seq<char>>)
    requires
        forall|p: int| 0 <= p <= text.len() ==> #[trigger] agree_at(text, p, a, b),
    ensures
        spliced_among(text, a) == spliced_among(text, b),
    decreases text.len(),
{
    if text.len() > 0 {
        assert(text.skip(0) =~= text);
        let k = match leading_name(text) {
            Some(name) => {
                lemma_leading_name(text, name);
                assert(agree_at(text, 0, a, b));
                if a.contains(name) {
                    name.len() as int + 2
                } else {
                    1
                }
            },
            None => 1,
        };
        let rest = text.skip(k);
        assert forall|p: int| 0 <= p <= rest.len() implies #[trigger] agree_at(rest, p, a, b) by {
            assert(rest.skip(p) =~= text.skip(k + p));
            assert(agree_at(text, k + p, a, b));
        }
        lemma_names_suffice(rest, a, b);
    }
}

/// The name of a placeholder that stands in a text is one of its segments.
proof fn lemma_leading_name_is_segment(text: Seq<char>, p: int, name: Seq<char>) -> (j: int)
    requires
        0 <= p <= text.len(),
        leading_name(text.skip(p)) == Some(name),
    ensures
        0 <= j < segments_of(text).len(),
        segments_of(text)[j] == name,
    decreases text.len(),
{
    lemma_leading_name(text.skip(p), name);
    lemma_letters_are_unbraced(name);
    lemma_run_len(text, CharClass::Unbraced);
    let r = run_len(text, CharClass::Unbraced) as int;
    assert(text[p] == text.skip(p)[0]);
    assert(r <= p) by {
        if r > p {
            assert(CharClass::Unbraced.contains(text.take(r)[p]));
        }
    }
    let behind = text.skip(r + 1);
    if r == p {
        let n = name.len() as int;
        assert(behind.take(n) =~= name) by {
            assert(text.skip(p) =~= placeholder(name) + text.skip(p).skip(n + 2));
            assert forall|i: int| 0 <= i < n implies behind[i] == name[i] by {
                assert(behind[i] == text.skip(p)[i + 1]);
            }
        }
        assert(behind[n] == text.skip(p)[n + 1]);
        lemma_run_len_is(behind, CharClass::Unbraced, name.len());
        assert(segments_of(behind)[0] == name);
        1
    } else {
        assert(behind.skip(p - r - 1) =~= text.skip(p));
        let i = lemma_leading_name_is_segment(behind, p - r - 1, name);
        i + 1
    }
}

/// The rewriting segment by segment splices every placeholder exactly
/// once: it gives the template with each `{name}` of which the name is an
/// identifier replaced by `${name}` at the place where it stands, and
/// `MalformedInteger` where the scanner refuses a segment.
pub proof fn law_rewriting_splices_once(template: Seq<char>)
    ensures
        rewritten(template, segments_of(template), 0) == interpolated(template),
{
    let segments = segments_of(template);
    let all = names_before(segments, segments.len() as int);
    lemma_rewritten_refused(template, segments, 0);
    if !refuses_segment(template) {
        assert forall|i: int| 0 <= i < segments.len() implies tokens_of(
            #[trigger] segments[i],
        ) is Ok by {}
        // no name yet: the template as it is
        let none = names_before(segments, 0);
        assert forall|p: int| 0 <= p <= template.len() implies #[trigger] agree_at(
            template,
            p,
            none,
            Set::empty(),
        ) by {}
        lemma_names_suffice(template, none, Set::empty());
        lemma_spliced_of_no_name(template);
        lemma_rewritten_is_spliced(template, segments, 0);
        // the names of all segments: the names of all placeholders
        assert forall|p: int| 0 <= p <= template.len() implies #[trigger] agree_at(
            template,
            p,
            all,
            Set::full(),
        ) by {
            if let Some(name) = leading_name(template.skip(p)) {
                lemma_leading_name(template.skip(p), name);
                let j = lemma_leading_name_is_segment(template, p, name);
                assert(segments[j] == name);
            }
        }
        lemma_names_suffice(template, all, Set::full());
        lemma_spliced_among_all(template);
    }
}

/// With no name to splice, a text is left as it is.
proof fn lemma_spliced_of_no_name(text: Seq<char>)
    ensures
        spliced_among(text, Set::empty()) == text,
    decreases text.len(),
{
    if text.len() > 0 {
        lemma_spliced_of_no_name(text.skip(1));
        assert(seq![text[0]] + text.skip(1) =~= text);
    }
}

} // verus!
