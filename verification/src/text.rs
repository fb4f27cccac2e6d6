//! Characters, runs of characters, and the passage between `str`, `String`
//! and vectors of `char` on which the scanner and the generator work.

use vstd::prelude::*;

verus! {

/// `String::push` of the standard library: the string afterwards is the string
/// before with the one character `c` appended, as its documentation says.
/// Taken on trust; vstd states nothing of this method.
pub assume_specification[ String::push ](s: &mut String, c: char)
    ensures
        final(s)@ == old(s)@.push(c),
;

/// Space, tab, line feed and carriage return separate tokens and mean nothing else.
pub open spec fn is_whitespace(c: char) -> bool {
    c == ' ' || c == '\t' || c == '\n' || c == '\r'
}

/// The ASCII letters, the only characters of a word.
pub open spec fn is_letter(c: char) -> bool {
    ('a' <= c && c <= 'z') || ('A' <= c && c <= 'Z')
}

/// The ASCII decimal digits.
pub open spec fn is_digit(c: char) -> bool {
    '0' <= c && c <= '9'
}

/// The two characters on which a template is cut into segments.
pub open spec fn is_brace(c: char) -> bool {
    c == '{' || c == '}'
}

/// A set of characters of which the scanner takes the longest run it can.
#[derive(Clone, Copy, Debug)]
pub enum CharClass {
    /// The ASCII letters.
    Letter,
    /// The ASCII decimal digits.
    Digit,
    /// Every character but the quotation mark: the body of a string literal.
    Unquoted,
    /// Every character but `{` and `}`: a segment of a template.
    Unbraced,
}

impl CharClass {
    /// Whether `c` belongs to the class.
    pub open spec fn contains(self, c: char) -> bool {
        match self {
            CharClass::Letter => is_letter(c),
            CharClass::Digit => is_digit(c),
            CharClass::Unquoted => c != '"',
            CharClass::Unbraced => !is_brace(c),
        }
    }

    /// Tests whether `c` belongs to the class.
    pub fn accepts(self, c: char) -> (b: bool)
        ensures
            b == self.contains(c),
    {
        match self {
            CharClass::Letter => (c >= 'a' && c <= 'z') || (c >= 'A' && c <= 'Z'),
            CharClass::Digit => c >= '0' && c <= '9',
            CharClass::Unquoted => c != '"',
            CharClass::Unbraced => c != '{' && c != '}',
        }
    }
}

/// Whether every character of `s` belongs to `class`.
pub open spec fn all_in(s: Seq<char>, class: CharClass) -> bool {
    forall|i: int| 0 <= i < s.len() ==> class.contains(#[trigger] s[i])
}

/// Whether `s` holds nothing but whitespace.
pub open spec fn all_whitespace(s: Seq<char>) -> bool {
    forall|i: int| 0 <= i < s.len() ==> is_whitespace(#[trigger] s[i])
}

/// The length of the longest prefix of `s` made of characters of `class`.
pub open spec fn run_len(s: Seq<char>, class: CharClass) -> nat
    decreases s.len(),
{
    if s.len() > 0 && class.contains(s[0]) {
        1 + run_len(s.skip(1), class)
    } else {
        0
    }
}

/// A run stays inside the text, holds characters of its class only, and
/// stops at the end of the text or before a character outside the class.
pub proof fn lemma_run_len(s: Seq<char>, class: CharClass)
    ensures
        run_len(s, class) <= s.len(),
        all_in(s.take(run_len(s, class) as int), class),
        run_len(s, class) < s.len() ==> !class.contains(s[run_len(s, class) as int]),
    decreases s.len(),
{
    if s.len() > 0 && class.contains(s[0]) {
        let rest = s.skip(1);
        lemma_run_len(rest, class);
        let n = run_len(rest, class) as int;
        assert forall|i: int| 0 <= i < n + 1 implies class.contains(
            #[trigger] s.take(n + 1)[i],
        ) by {
            if i > 0 {
                assert(s.take(n + 1)[i] == rest.take(n)[i - 1]);
            }
        }
    }
}

/// The run of `class` at the head of `s` has length `n` as soon as the first
/// `n` characters belong to the class and the next one, if any, does not.
pub proof fn lemma_run_len_is(s: Seq<char>, class: CharClass, n: nat)
    requires
        n <= s.len(),
        all_in(s.take(n as int), class),
        n < s.len() ==> !class.contains(s[n as int]),
    ensures
        run_len(s, class) == n,
    decreases n,
{
    if n > 0 {
        assert(s.take(n as int)[0] == s[0]);
        let rest = s.skip(1);
        assert forall|i: int| 0 <= i < n - 1 implies class.contains(
            #[trigger] rest.take(n - 1)[i],
        ) by {
            assert(rest.take(n - 1)[i] == s.take(n as int)[i + 1]);
        }
        lemma_run_len_is(rest, class, (n - 1) as nat);
    }
}

/// What follows a text leaves the run at its head alone, unless the run
/// reaches the end of the text and what follows begins with a character of
/// the class.
pub proof fn lemma_run_len_concat(a: Seq<char>, b: Seq<char>, class: CharClass)
    requires
        run_len(a, class) < a.len() || b.len() == 0 || !class.contains(b[0]),
    ensures
        run_len(a + b, class) == run_len(a, class),
{
    lemma_run_len(a, class);
    let n = run_len(a, class);
    assert((a + b).take(n as int) =~= a.take(n as int));
    lemma_run_len_is(a + b, class, n);
}

/// The length of the run of `class` at the head of `chars`.
pub fn run_of(chars: &[char], class: CharClass) -> (n: usize)
    ensures
        n == run_len(chars@, class),
{
    let mut n: usize = 0;
    while n < chars.len() && class.accepts(chars[n])
        invariant
            n <= chars.len(),
            all_in(chars@.take(n as int), class),
        decreases chars.len() - n,
    {
        n += 1;
    }
    proof {
        lemma_run_len_is(chars@, class, n as nat);
    }
    n
}

/// The characters of a string slice, in order.
pub fn chars_of(s: &str) -> (chars: Vec<char>)
    ensures
        chars@ == s@,
{
    let mut chars: Vec<char> = Vec::new();
    for c in it: s.chars()
        invariant
            chars@ == it.seq().take(it.index() as int),
    {
        chars.push(c);
    }
    chars
}

/// Appends `chars` to `out`.
pub fn push_chars(out: &mut String, chars: &[char])
    ensures
        final(out)@ == old(out)@ + chars@,
{
    let mut i: usize = 0;
    while i < chars.len()
        invariant
            i <= chars.len(),
            out@ == old(out)@ + chars@.take(i as int),
        decreases chars.len() - i,
    {
        out.push(chars[i]);
        i += 1;
    }
}

/// The string made of `chars`.
pub fn string_of(chars: &[char]) -> (s: String)
    ensures
        s@ == chars@,
{
    let mut s = String::new();
    push_chars(&mut s, chars);
    s
}

/// Whether `chars` spell `word`.
pub fn spells(chars: &[char], word: &str) -> (b: bool)
    ensures
        b == (chars@ == word@),
{
    let mut i: usize = 0;
    for c in it: word.chars()
        invariant
            i <= chars.len(),
            i == it.index(),
            it.seq() == word@,
            chars@.take(i as int) == word@.take(i as int),
    {
        if i >= chars.len() || chars[i] != c {
            return false;
        }
        i += 1;
    }
    assert(word@.take(i as int) =~= word@);
    assert(i == chars.len() ==> chars@.take(i as int) =~= chars@);
    i == chars.len()
}

} // verus!
