use regex::compile;

fn accepts(pattern: &str, subject: &str) -> bool {
    let nfa = compile(pattern.to_string()).expect("pattern should compile");
    nfa.match_regex(subject)
}

#[test]
fn empty_pattern_accepts_only_empty_subject() {
    assert!(accepts("", ""));
    assert!(!accepts("", "x"));
    assert!(!accepts("", "ab"));
}

#[test]
fn empty_subject_accepted_iff_language_has_empty_string() {
    assert!(accepts("a*", ""));
    assert!(!accepts("a", ""));
    assert!(accepts("a?", ""));
    assert!(!accepts("a+", ""));
    assert!(accepts("a|b*", ""));
    assert!(accepts("(a?b)*", ""));
    assert!(!accepts("(a?b)+", ""));
    assert!(accepts("(a?b?)+", ""));
    assert!(!accepts("a*b", ""));
}

#[test]
fn concatenation_law() {
    assert!(accepts("ab", "ab"));
    assert!(!accepts("ab", "a"));
    assert!(!accepts("ab", "b"));
    assert!(!accepts("ab", "abc"));
}

#[test]
fn union_law() {
    assert!(accepts("a|b", "a"));
    assert!(accepts("a|b", "b"));
    assert!(!accepts("a|b", "ab"));
    assert!(!accepts("a|b", ""));
}

#[test]
fn closure_law() {
    assert!(accepts("a*", ""));
    assert!(accepts("a*", "a"));
    assert!(accepts("a*", "aaaa"));
    assert!(!accepts("a*", "b"));
    assert!(!accepts("a*", "aab"));
    assert!(!accepts("a*", "baa"));
}

#[test]
fn one_or_more_law() {
    assert!(!accepts("a+", ""));
    assert!(accepts("a+", "a"));
    assert!(accepts("a+", "aaa"));
    assert!(!accepts("a+", "ab"));
}

#[test]
fn zero_or_one_law() {
    assert!(accepts("a?", ""));
    assert!(accepts("a?", "a"));
    assert!(!accepts("a?", "aa"));
}

#[test]
fn precedence_star_binds_tighter_than_concat() {
    assert!(accepts("ab*c", "ac"));
    assert!(accepts("ab*c", "abc"));
    assert!(accepts("ab*c", "abbbbc"));
    assert!(!accepts("ab*c", "abcb"));
    assert!(!accepts("ab*c", "ab"));
}

#[test]
fn grouping_changes_precedence() {
    assert!(accepts("(ab)*", ""));
    assert!(accepts("(ab)*", "ab"));
    assert!(accepts("(ab)*", "abab"));
    assert!(!accepts("(ab)*", "a"));
    assert!(!accepts("(ab)*", "aba"));
}

#[test]
fn alternation_binds_loosest() {
    assert!(accepts("ab|c", "ab"));
    assert!(accepts("ab|c", "c"));
    assert!(!accepts("ab|c", "ac"));
    assert!(!accepts("ab|c", "abc"));
}

#[test]
fn compiling_twice_matches_identically() {
    let n1 = compile("a(b|c)*d".to_string()).expect("pattern should compile");
    let n2 = compile("a(b|c)*d".to_string()).expect("pattern should compile");
    for subject in ["ad", "abd", "acd", "abcbcd", "a", "d", "abc", ""] {
        assert_eq!(n1.match_regex(subject), n2.match_regex(subject));
    }
}

#[test]
fn end_to_end_reference_pattern() {
    for subject in ["ac", "abc", "abbc", "acdw", "acw", "w"] {
        assert!(accepts("ab*c(d?w)*|w", subject), "should accept {}", subject);
    }
    for subject in ["ab", "dac"] {
        assert!(!accepts("ab*c(d?w)*|w", subject), "should reject {}", subject);
    }
}

#[test]
fn literal_characters_beyond_ascii() {
    assert!(accepts("é*", "ééé"));
    assert!(!accepts("é*", "e"));
}
