use regex::postfix::{to_postfix, with_explicit_concat};
use regex::{create_matcher, postfix_to_nfa, recognize};

#[test]
fn explicit_concat_between_adjacent_atoms() {
    assert_eq!(with_explicit_concat("ab"), "a.b");
    assert_eq!(with_explicit_concat("abc"), "a.b.c");
    assert_eq!(with_explicit_concat(""), "");
    assert_eq!(with_explicit_concat("a"), "a");
}

#[test]
fn explicit_concat_skips_operators_and_groups() {
    assert_eq!(with_explicit_concat("a|b"), "a|b");
    assert_eq!(with_explicit_concat("a*b"), "a*.b");
    assert_eq!(with_explicit_concat("(ab)c"), "(a.b).c");
    assert_eq!(with_explicit_concat("ab*c(d?w)*|w"), "a.b*.c.(d?.w)*|w");
}

#[test]
fn shunting_yard_orders_by_precedence() {
    assert_eq!(to_postfix("a.b|c"), "ab.c|");
    assert_eq!(to_postfix("a.(b|c)"), "abc|.");
    assert_eq!(to_postfix("a.b*"), "ab*.");
    assert_eq!(to_postfix(""), "");
    assert_eq!(to_postfix(with_explicit_concat("ab*c").as_str()), "ab*.c.");
}

#[test]
fn postfix_pipeline_matches_like_the_compiler() {
    let nfa = create_matcher("ab*c(d?w)*|w").expect("pattern should build");
    for subject in ["ac", "abc", "abbc", "acdw", "acw", "w"] {
        assert!(recognize(&nfa, subject), "should accept {}", subject);
    }
    for subject in ["ab", "dac"] {
        assert!(!recognize(&nfa, subject), "should reject {}", subject);
    }
}

#[test]
fn unmatched_parens_fail_the_postfix_pipeline() {
    assert!(create_matcher(")").is_err());
    assert!(create_matcher("a)b").is_err());
    assert!(create_matcher("(a").is_err());
    assert!(create_matcher("a(b").is_err());
    assert!(create_matcher("(a))").is_err());
    assert!(create_matcher("(a)").is_ok());
    assert!(create_matcher("((a)b)").is_ok());
}

#[test]
fn stray_close_paren_reaches_the_output() {
    assert_eq!(to_postfix(")"), ")");
    assert_eq!(to_postfix("a).b"), "a)b.");
}

#[test]
fn hand_built_postfix_stream_runs() {
    let nfa = postfix_to_nfa("ab.").expect("postfix should build");
    assert!(recognize(&nfa, "ab"));
    assert!(!recognize(&nfa, "a"));
    assert!(!recognize(&nfa, "ba"));
}

#[test]
fn empty_subject_through_the_postfix_pipeline() {
    let star = create_matcher("a*").expect("pattern should build");
    assert!(recognize(&star, ""));
    let lit = create_matcher("a").expect("pattern should build");
    assert!(!recognize(&lit, ""));
    let opt = create_matcher("(a?b)*").expect("pattern should build");
    assert!(recognize(&opt, ""));
    let plus = create_matcher("ab+").expect("pattern should build");
    assert!(!recognize(&plus, ""));
}

#[test]
fn empty_postfix_stream_accepts_only_empty() {
    let nfa = postfix_to_nfa("").expect("empty postfix should build");
    assert!(recognize(&nfa, ""));
    assert!(!recognize(&nfa, "a"));
}
