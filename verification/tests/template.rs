use minicompiler::outcome::CompileError;
use minicompiler::template::{interpolate, replace, split};

fn chars(s: &str) -> Vec<char> {
    s.chars().collect()
}

fn replaced(text: &str, pattern: &str, with: &str) -> String {
    replace(&chars(text), &chars(pattern), &chars(with)).into_iter().collect()
}

fn spliced(template: &str) -> Result<String, CompileError> {
    interpolate(&chars(template)).map(|text| text.into_iter().collect())
}

#[test]
fn replace_every_occurrence() {
    assert_eq!(replaced("a-b-c", "-", "+"), "a+b+c");
    assert_eq!(replaced("{x} and {x}", "{x}", "${x}"), "${x} and ${x}");
}

#[test]
fn replace_agrees_with_the_standard_library() {
    for (text, pattern, with) in [
        ("aaaa", "aa", "b"),
        ("aaa", "aa", "b"),
        ("abcabc", "bc", ""),
        ("abc", "abc", "xyz"),
        ("abc", "abcd", "x"),
        ("", "a", "b"),
        ("ababab", "aba", "c"),
        ("x{a}{a}y", "{a}", "${a}"),
    ] {
        assert_eq!(replaced(text, pattern, with), text.replace(pattern, with));
    }
}

#[test]
fn occurrences_do_not_overlap() {
    assert_eq!(replaced("aaa", "aa", "b"), "ba");
    assert_eq!(replaced("ababab", "aba", "c"), "cbab");
}

#[test]
fn what_is_put_in_is_not_searched_again() {
    assert_eq!(replaced("ab", "a", "aa"), "aab");
}

#[test]
fn an_empty_pattern_occurs_nowhere() {
    assert_eq!(replaced("abc", "", "x"), "abc");
    assert_eq!(replaced("", "", "x"), "");
}

#[test]
fn a_pattern_longer_than_the_text_occurs_nowhere() {
    assert_eq!(replaced("ab", "abc", "x"), "ab");
}

fn pieces(template: &str) -> Vec<String> {
    split(&chars(template)).into_iter().map(|part| part.into_iter().collect()).collect()
}

#[test]
fn split_at_every_brace() {
    assert_eq!(pieces("Hello {name}!"), vec!["Hello ", "name", "!"]);
    assert_eq!(pieces("{a}{a}"), vec!["", "a", "", "a", ""]);
    assert_eq!(pieces("}{"), vec!["", "", ""]);
    assert_eq!(pieces("no braces"), vec!["no braces"]);
    assert_eq!(pieces(""), vec![""]);
}

#[test]
fn split_agrees_with_the_standard_library() {
    for template in ["", "{", "}", "a{b}c", "{{a}}", "x}y{z", "{}{}", "caf\u{e9} {n} {m}"] {
        let expected: Vec<&str> = template.split(|c| c == '{' || c == '}').collect();
        assert_eq!(pieces(template), expected);
    }
}

#[test]
fn splice_each_occurrence_once() {
    assert_eq!(spliced("{a}{a}"), Ok("${a}${a}".to_string()));
    assert_eq!(spliced("a{a}"), Ok("a${a}".to_string()));
    assert_eq!(spliced("{a} {b} {a}"), Ok("${a} ${b} ${a}".to_string()));
}

#[test]
fn splice_one_placeholder() {
    assert_eq!(spliced("Hello {name}"), Ok("Hello ${name}".to_string()));
}

#[test]
fn splice_leaves_other_braces_alone() {
    assert_eq!(spliced("literal {123}"), Ok("literal {123}".to_string()));
    assert_eq!(spliced("{} {a b} {print}"), Ok("{} {a b} {print}".to_string()));
}

#[test]
fn splice_of_the_empty_template() {
    assert_eq!(spliced(""), Ok(String::new()));
}

#[test]
fn splice_refuses_a_large_number() {
    assert_eq!(spliced("{x} 99999999999"), Err(CompileError::MalformedInteger));
}

/// Reads the template once and replaces each placeholder where it stands.
fn spliced_in_one_pass(template: &str) -> String {
    let chars: Vec<char> = template.chars().collect();
    let mut out = String::new();
    let mut i = 0;
    while i < chars.len() {
        if chars[i] == '{' {
            let mut j = i + 1;
            while j < chars.len() && chars[j].is_ascii_alphabetic() {
                j += 1;
            }
            let name: String = chars[i + 1..j].iter().collect();
            let reserved = name == "print" || name == "var" || name == "mut";
            if j > i + 1 && j < chars.len() && chars[j] == '}' && !reserved {
                out.push_str("${");
                out.push_str(&name);
                out.push('}');
                i = j + 1;
                continue;
            }
        }
        out.push(chars[i]);
        i += 1;
    }
    out
}

#[test]
fn every_short_template_has_each_placeholder_spliced_once() {
    let alphabet = ['{', '}', 'a', 'b', '$', ' '];
    let mut templates = vec![String::new()];
    let mut checked = 0;
    for _ in 0..5 {
        let mut longer = Vec::new();
        for template in &templates {
            for c in alphabet {
                let mut next = template.clone();
                next.push(c);
                assert_eq!(spliced(&next), Ok(spliced_in_one_pass(&next)));
                checked += 1;
                longer.push(next);
            }
        }
        templates = longer;
    }
    assert_eq!(checked, 6 + 36 + 216 + 1296 + 7776);
}

#[test]
fn reserved_words_between_braces_are_left_alone_in_one_pass_too() {
    for template in ["{print}{var}{mut}{prints}", "{var}{a}{var}{a}", "x{mut}{mut}y"] {
        assert_eq!(spliced(template), Ok(spliced_in_one_pass(template)));
    }
    assert_eq!(spliced("{var}{a}{var}{a}"), Ok("{var}${a}{var}${a}".to_string()));
}
