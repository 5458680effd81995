use kwmatcher::{AhoMatcher, MatcherError};
use std::collections::HashSet;

fn built(patterns: &[&str], use_logic: Option<bool>) -> AhoMatcher {
    let mut matcher = AhoMatcher::new(use_logic);
    let owned: Vec<String> = patterns.iter().map(|p| p.to_string()).collect();
    matcher.build(&owned).unwrap();
    matcher
}

fn found(matcher: &AhoMatcher, haystack: &str) -> HashSet<String> {
    let reported = matcher.find(haystack).unwrap();
    let as_set: HashSet<String> = reported.iter().cloned().collect();
    assert_eq!(as_set.len(), reported.len(), "a pattern was reported twice");
    as_set
}

fn set_of(texts: &[&str]) -> HashSet<String> {
    texts.iter().map(|t| t.to_string()).collect()
}

#[test]
fn find_before_any_build_is_refused() {
    let matcher = AhoMatcher::new(None);
    assert_eq!(matcher.find("anything"), Err(MatcherError::NotBuilt));
    assert_eq!(matcher.find(""), Err(MatcherError::NotBuilt));
}

#[test]
fn find_stays_refused_after_a_failed_first_build() {
    let mut matcher = AhoMatcher::new(None);
    assert_eq!(matcher.build(&vec![String::new()]), Err(MatcherError::EmptyPattern));
    assert_eq!(matcher.find("a"), Err(MatcherError::NotBuilt));
}

#[test]
fn build_without_patterns_is_refused() {
    let mut matcher = AhoMatcher::new(None);
    assert_eq!(matcher.build(&Vec::new()), Err(MatcherError::EmptyVocabulary));
    assert_eq!(matcher.find("a"), Err(MatcherError::NotBuilt));
}

#[test]
fn build_without_patterns_keeps_what_was_built() {
    let mut matcher = built(&["a"], None);
    assert_eq!(matcher.build(&Vec::new()), Err(MatcherError::EmptyVocabulary));
    assert_eq!(found(&matcher, "a"), set_of(&["a"]));
}

#[test]
fn build_with_an_empty_pattern_keeps_what_was_built() {
    let mut matcher = built(&["a"], None);
    let outcome = matcher.build(&vec!["b".to_string(), String::new()]);
    assert_eq!(outcome, Err(MatcherError::EmptyPattern));
    assert_eq!(found(&matcher, "a b"), set_of(&["a"]));
}

#[test]
fn build_with_an_empty_pattern_is_refused_without_logic_too() {
    let mut matcher = AhoMatcher::new(Some(false));
    let outcome = matcher.build(&vec!["~".to_string(), String::new()]);
    assert_eq!(outcome, Err(MatcherError::EmptyPattern));
}

#[test]
fn build_without_a_positive_term_is_refused() {
    for pattern in ["~a", "~", " & ~b", "&", "   ", "&&~a&b", "\t~x"] {
        let mut matcher = built(&["kept"], None);
        let outcome = matcher.build(&vec!["fine".to_string(), pattern.to_string()]);
        assert_eq!(outcome, Err(MatcherError::MissingPositiveTerm), "pattern {:?}", pattern);
        assert_eq!(found(&matcher, "kept fine"), set_of(&["kept"]));
    }
}

#[test]
fn the_first_failing_pattern_names_the_error() {
    let mut matcher = AhoMatcher::new(None);
    let outcome = matcher.build(&vec!["ok".to_string(), "~a".to_string(), String::new()]);
    assert_eq!(outcome, Err(MatcherError::MissingPositiveTerm));
    let outcome = matcher.build(&vec![String::new(), "~a".to_string()]);
    assert_eq!(outcome, Err(MatcherError::EmptyPattern));
}

#[test]
fn find_in_the_empty_text_reports_nothing() {
    let matcher = built(&["a", "b~c", "d&e"], None);
    assert_eq!(matcher.find(""), Ok(Vec::new()));
    let plain = built(&["a", "b~c"], Some(false));
    assert_eq!(plain.find(""), Ok(Vec::new()));
}

#[test]
fn find_in_a_text_without_any_term_reports_nothing() {
    let matcher = built(&["a", "b~c", "d&e"], None);
    assert_eq!(matcher.find("xyz 123"), Ok(Vec::new()));
}

#[test]
fn positive_only_pattern() {
    let matcher = built(&["a&b"], None);
    assert_eq!(found(&matcher, "a b"), set_of(&["a&b"]));
    assert_eq!(found(&matcher, "b then a"), set_of(&["a&b"]));
    assert_eq!(found(&matcher, "a"), set_of(&[]));
    assert_eq!(found(&matcher, "b"), set_of(&[]));
}

#[test]
fn negative_group_suppression() {
    let matcher = built(&["a~b&c"], None);
    assert_eq!(found(&matcher, "a b c"), set_of(&[]));
    assert_eq!(found(&matcher, "a b"), set_of(&["a~b&c"]));
    assert_eq!(found(&matcher, "a c"), set_of(&["a~b&c"]));
    assert_eq!(found(&matcher, "a"), set_of(&["a~b&c"]));
    assert_eq!(found(&matcher, "b c"), set_of(&[]));
}

#[test]
fn multiple_negative_groups_each_suppress() {
    let matcher = built(&["a~b~c"], None);
    assert_eq!(found(&matcher, "a"), set_of(&["a~b~c"]));
    assert_eq!(found(&matcher, "a x"), set_of(&["a~b~c"]));
    assert_eq!(found(&matcher, "a b"), set_of(&[]));
    assert_eq!(found(&matcher, "a c"), set_of(&[]));
    assert_eq!(found(&matcher, "a b c"), set_of(&[]));
    assert_eq!(found(&matcher, "b c"), set_of(&[]));
}

#[test]
fn a_term_that_only_begins_a_longer_term_is_not_observed() {
    let matcher = built(&["cat", "catalog"], None);
    assert_eq!(found(&matcher, "catalog"), set_of(&["catalog"]));
    assert_eq!(found(&matcher, "the catalog is here"), set_of(&["catalog"]));
    assert_eq!(found(&matcher, "cat"), set_of(&["cat"]));
    assert_eq!(found(&matcher, "a cat in a catalog"), set_of(&["cat", "catalog"]));
    assert_eq!(found(&matcher, "catalo"), set_of(&["cat"]));
    let plain = built(&["cat", "catalog"], Some(false));
    assert_eq!(found(&plain, "catalog"), set_of(&["catalog"]));
    assert_eq!(found(&plain, "catalogcat"), set_of(&["cat", "catalog"]));
}

#[test]
fn a_term_that_starts_inside_a_match_is_not_observed() {
    let matcher = built(&["ab", "bc", "cd"], None);
    assert_eq!(found(&matcher, "abc"), set_of(&["ab"]));
    assert_eq!(found(&matcher, "abcd"), set_of(&["ab", "cd"]));
    assert_eq!(found(&matcher, "xbcd"), set_of(&["bc"]));
}

#[test]
fn a_shadowed_negative_term_does_not_suppress() {
    let matcher = built(&["dog~cat", "catalog"], None);
    assert_eq!(found(&matcher, "dog catalog"), set_of(&["dog~cat", "catalog"]));
    assert_eq!(found(&matcher, "dog cat"), set_of(&[]));
}

#[test]
fn rebuilding_from_the_same_patterns_changes_no_answer() {
    let patterns: Vec<String> =
        ["a&b", "a~b&c", "cat", "catalog", "x~y~z"].iter().map(|p| p.to_string()).collect();
    let texts = ["", "a b", "a b c", "catalog x", "cat x y", "x z a", "nothing"];
    let mut matcher = AhoMatcher::new(None);
    assert_eq!(matcher.build(&patterns), Ok(()));
    let first: Vec<HashSet<String>> = texts.iter().map(|t| found(&matcher, t)).collect();
    assert_eq!(matcher.build(&patterns), Ok(()));
    let second: Vec<HashSet<String>> = texts.iter().map(|t| found(&matcher, t)).collect();
    assert_eq!(first, second);
    assert_eq!(first[1], set_of(&["a&b", "a~b&c"]));
    assert_eq!(first[2], set_of(&["a&b"]));
    assert_eq!(first[3], set_of(&["catalog", "x~y~z"]));
    assert_eq!(first[4], set_of(&["cat"]));
    assert_eq!(first[5], set_of(&["a~b&c"]));
    assert_eq!(first[6], set_of(&[]));
}

#[test]
fn the_order_of_the_patterns_changes_no_answer() {
    let forward = built(&["a&b", "cat", "catalog", "a~c"], None);
    let backward = built(&["a~c", "catalog", "cat", "a&b"], None);
    for text in ["a b", "a c b", "catalog a", "cat", ""] {
        assert_eq!(found(&forward, text), found(&backward, text), "text {:?}", text);
    }
}

#[test]
fn a_new_build_replaces_the_old_one() {
    let mut matcher = built(&["a"], None);
    assert_eq!(found(&matcher, "a b"), set_of(&["a"]));
    matcher.build(&vec!["b".to_string()]).unwrap();
    assert_eq!(found(&matcher, "a b"), set_of(&["b"]));
}

#[test]
fn without_logic_separators_are_plain_characters() {
    let matcher = built(&["a&b", "x~y", "plain", " spaced "], Some(false));
    assert_eq!(found(&matcher, "say a&b now"), set_of(&["a&b"]));
    assert_eq!(found(&matcher, "a b"), set_of(&[]));
    assert_eq!(found(&matcher, "x~y and plain"), set_of(&["x~y", "plain"]));
    assert_eq!(found(&matcher, "x y"), set_of(&[]));
    assert_eq!(found(&matcher, "is spaced out"), set_of(&[" spaced "]));
    assert_eq!(found(&matcher, "spaced"), set_of(&[]));
}

#[test]
fn without_logic_a_pattern_of_separators_only_is_accepted() {
    let matcher = built(&["~", "&"], Some(false));
    assert_eq!(found(&matcher, "a~b"), set_of(&["~"]));
    assert_eq!(found(&matcher, "a&b~c"), set_of(&["~", "&"]));
}

#[test]
fn logic_is_on_unless_switched_off() {
    let by_default = built(&["a&b"], None);
    let switched_on = built(&["a&b"], Some(true));
    let switched_off = built(&["a&b"], Some(false));
    assert_eq!(found(&by_default, "a b"), set_of(&["a&b"]));
    assert_eq!(found(&switched_on, "a b"), set_of(&["a&b"]));
    assert_eq!(found(&switched_off, "a b"), set_of(&[]));
    assert_eq!(found(&switched_off, "a&b"), set_of(&["a&b"]));
    assert_eq!(found(&by_default, "a&b"), set_of(&["a&b"]));
}

#[test]
fn the_raw_text_is_reported_as_it_was_given() {
    let matcher = built(&["  a &  b  ~  c ", "a&&b", "a~~b"], None);
    assert_eq!(found(&matcher, "b a"), set_of(&["  a &  b  ~  c ", "a&&b"]));
    assert_eq!(found(&matcher, "a"), set_of(&["a~~b"]));
    assert_eq!(found(&matcher, "a b c"), set_of(&["a&&b"]));
}

#[test]
fn terms_keep_their_inner_spaces() {
    let matcher = built(&["new york & city"], None);
    assert_eq!(found(&matcher, "new york city"), set_of(&["new york & city"]));
    assert_eq!(found(&matcher, "new  york city"), set_of(&[]));
}

#[test]
fn matching_is_case_sensitive() {
    let matcher = built(&["Cat"], None);
    assert_eq!(found(&matcher, "cat"), set_of(&[]));
    assert_eq!(found(&matcher, "Cat"), set_of(&["Cat"]));
}

#[test]
fn terms_beyond_ascii_are_matched() {
    let matcher = built(&["héllo&wörld", "日本~東京", "\u{3000}全角\u{3000}"], None);
    assert_eq!(found(&matcher, "wörld, héllo"), set_of(&["héllo&wörld"]));
    assert_eq!(found(&matcher, "日本"), set_of(&["日本~東京"]));
    assert_eq!(found(&matcher, "日本と東京"), set_of(&[]));
    assert_eq!(found(&matcher, "これは全角です"), set_of(&["\u{3000}全角\u{3000}"]));
    assert_eq!(found(&matcher, "hello world"), set_of(&[]));
}

#[test]
fn equal_patterns_are_reported_once() {
    let matcher = built(&["a", "a", "b", "a"], None);
    assert_eq!(matcher.find("a").unwrap(), vec!["a".to_string()]);
    assert_eq!(found(&matcher, "b a"), set_of(&["a", "b"]));
}

#[test]
fn patterns_that_share_terms_are_judged_apart() {
    let matcher = built(&["a&b", "a&c", "a~b", "b~a"], None);
    assert_eq!(found(&matcher, "a"), set_of(&["a~b"]));
    assert_eq!(found(&matcher, "a b"), set_of(&["a&b"]));
    assert_eq!(found(&matcher, "a c"), set_of(&["a&c", "a~b"]));
    assert_eq!(found(&matcher, "b"), set_of(&["b~a"]));
}

#[test]
fn every_pattern_gets_its_own_verdict_among_many() {
    let patterns: Vec<String> = (0..2000).map(|i| format!("<{}>&<{}>", i, i + 1)).collect();
    let mut matcher = AhoMatcher::new(None);
    matcher.build(&patterns).unwrap();
    let reported = found(&matcher, "<7> <8> <9> <500> <1999> <2000> <41>");
    assert_eq!(reported, set_of(&["<7>&<8>", "<8>&<9>", "<1999>&<2000>"]));
    let reported = found(&matcher, "<1999> <2000> <8> <7>");
    assert_eq!(reported, set_of(&["<7>&<8>", "<1999>&<2000>"]));
}

#[test]
fn a_failure_among_many_patterns_is_found() {
    let mut patterns: Vec<String> = (0..500).map(|i| format!("p{}", i)).collect();
    patterns[321] = "~q".to_string();
    patterns[400] = String::new();
    let mut matcher = AhoMatcher::new(None);
    assert_eq!(matcher.build(&patterns), Err(MatcherError::MissingPositiveTerm));
    patterns[123] = String::new();
    assert_eq!(matcher.build(&patterns), Err(MatcherError::EmptyPattern));
    assert_eq!(matcher.find("p1"), Err(MatcherError::NotBuilt));
}

#[test]
fn a_long_text_is_scanned_to_its_end() {
    let matcher = built(&["needle~hay", "needle&stack"], None);
    let mut text = "straw ".repeat(20000);
    text.push_str("needle");
    assert_eq!(found(&matcher, &text), set_of(&["needle~hay"]));
    text.push_str(" stack hay");
    assert_eq!(found(&matcher, &text), set_of(&["needle&stack"]));
}
