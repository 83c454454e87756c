use regex::error::ErrorKind;
use regex::Regex;

// basic tests
#[test]
fn case0() {
    let re = Regex::new(r"(a|b)*").unwrap();

    assert!(re.is_match("aa"));
    assert!(re.is_match(""));
    assert!(re.is_match("bbb"));
    assert!(re.is_match("ab"));
    assert!(!re.is_match("abc"));
}

#[test]
fn case1() {
    let re = Regex::new(r"ab|cd").unwrap();

    assert!(re.is_match("ab"));
    assert!(re.is_match("cd"));
    assert!(!re.is_match("ac"));
    assert!(!re.is_match("bd"));
}

#[test]
fn case2() {
    let re = Regex::new(r"a(b|c)d").unwrap();

    assert!(re.is_match("abd"));
    assert!(re.is_match("acd"));
    assert!(!re.is_match("ad"));
    assert!(!re.is_match("abcd"));
}

#[test]
fn case3() {
    let re = Regex::new(r"a(b|c)*d").unwrap();

    assert!(re.is_match("ad"));
    assert!(re.is_match("abd"));
    assert!(re.is_match("acd"));
    assert!(re.is_match("abcbcd"));
    assert!(!re.is_match("abc"));
    assert!(!re.is_match("aabcd"));
}

#[test]
fn case4() {
    let re = Regex::new(r"a(b|c)?d").unwrap();

    assert!(re.is_match("ad"));
    assert!(re.is_match("abd"));
    assert!(re.is_match("acd"));
    assert!(!re.is_match("abcbcd"));
    assert!(!re.is_match("abc"));
    assert!(!re.is_match("abcd"));
}

#[test]
fn case5() {
    let re = Regex::new(r"a(b|c)+d").unwrap();

    assert!(re.is_match("abd"));
    assert!(re.is_match("acd"));
    assert!(re.is_match("abcd"));
    assert!(re.is_match("abcbcd"));
    assert!(!re.is_match("ad"));
    assert!(!re.is_match("abc"));
    assert!(!re.is_match("babcbd"));
}

fn parse_failure(pattern: &str) -> bool {
    match Regex::new(pattern) {
        Ok(_) => false,
        Err(e) => matches!(e.kind(), ErrorKind::ParseError(_)),
    }
}

#[test]
fn unclosed_group_is_a_parse_error() {
    assert!(parse_failure("a(b"));
}

#[test]
fn stray_tokens_are_parse_errors() {
    assert!(parse_failure("a)b"));
    assert!(parse_failure(""));
    assert!(parse_failure("*a"));
    assert!(parse_failure("a||b"));
    assert!(parse_failure("()"));
}

#[test]
fn matching_is_whole_string() {
    let re = Regex::new("ab").unwrap();
    assert!(re.is_match("ab"));
    assert!(!re.is_match("abab"));
    assert!(!re.is_match("xab"));
    assert!(!re.is_match("a"));
    assert!(!re.is_match(""));
}

#[test]
fn nested_quantifiers() {
    let re = Regex::new("((a|b)+)*").unwrap();
    assert!(re.is_match(""));
    assert!(re.is_match("abba"));
    assert!(!re.is_match("abc"));

    let re = Regex::new("(a*)*b").unwrap();
    assert!(re.is_match("b"));
    assert!(re.is_match("aaab"));
    assert!(!re.is_match("aaa"));

    // one quantifier per atom: a second one needs a group
    assert!(parse_failure("a??"));
    let re = Regex::new("(a?)?").unwrap();
    assert!(re.is_match(""));
    assert!(re.is_match("a"));
    assert!(!re.is_match("aa"));
}

#[test]
fn unicode_scalars_are_single_characters() {
    let re = Regex::new("é+ß").unwrap();
    assert!(re.is_match("ééß"));
    assert!(!re.is_match("e\u{301}ß"));
}

/// Whole-string membership in the language of `(a|b)*c?`, written out by hand.
fn oracle(s: &str) -> bool {
    let chars: Vec<char> = s.chars().collect();
    let body = if chars.last() == Some(&'c') { &chars[..chars.len() - 1] } else { &chars[..] };
    body.iter().all(|c| *c == 'a' || *c == 'b')
}

#[test]
fn agrees_with_a_direct_test_on_short_strings() {
    let re = Regex::new("(a|b)*c?").unwrap();
    let alphabet = ['a', 'b', 'c'];
    let mut words: Vec<String> = vec![String::new()];
    for _ in 0..5 {
        let mut longer = Vec::new();
        for w in &words {
            for c in alphabet {
                let mut x = w.clone();
                x.push(c);
                longer.push(x);
            }
        }
        for w in &words {
            assert_eq!(re.is_match(w), oracle(w), "{}", w);
        }
        words = longer;
    }
}
