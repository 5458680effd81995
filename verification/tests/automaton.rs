use kwmatcher::{MatcherError, ObservedTerms, TermAutomaton};

fn automaton(terms: &[&str]) -> TermAutomaton {
    let owned: Vec<String> = terms.iter().map(|t| t.to_string()).collect();
    TermAutomaton::build(&owned).unwrap()
}

fn check(observed: &ObservedTerms, present: &[&str], absent: &[&str]) {
    for text in present {
        assert!(observed.contains(text), "{:?} should be observed in {:?}", text, observed);
    }
    for text in absent {
        assert!(!observed.contains(text), "{:?} should not be observed in {:?}", text, observed);
    }
}

#[test]
fn automaton_refuses_an_empty_vocabulary() {
    let outcome = TermAutomaton::build(&Vec::new());
    assert_eq!(outcome.err(), Some(MatcherError::EmptyVocabulary));
}

#[test]
fn automaton_refuses_an_empty_term() {
    let terms = vec!["a".to_string(), String::new(), "b".to_string()];
    assert_eq!(TermAutomaton::build(&terms).err(), Some(MatcherError::EmptyPattern));
    assert_eq!(TermAutomaton::build(&vec![String::new()]).err(), Some(MatcherError::EmptyPattern));
}

#[test]
fn automaton_accepts_repeated_terms() {
    let index = automaton(&["a", "b", "a", "a"]);
    check(&index.scan("a"), &["a"], &["b"]);
    check(&index.scan("b"), &["b"], &["a"]);
}

#[test]
fn scan_of_the_empty_text_observes_nothing() {
    let index = automaton(&["a", "b"]);
    check(&index.scan(""), &[], &["a", "b", ""]);
}

#[test]
fn scan_observes_every_term_that_stands_apart() {
    let index = automaton(&["a", "b", "c"]);
    check(&index.scan("a b"), &["a", "b"], &["c", " ", "a b"]);
    check(&index.scan("xyz"), &[], &["a", "b", "c"]);
    check(&index.scan("cab"), &["a", "b", "c"], &[]);
}

#[test]
fn scan_takes_the_longest_term_at_a_place() {
    let index = automaton(&["cat", "catalog"]);
    check(&index.scan("catalog"), &["catalog"], &["cat"]);
    check(&index.scan("cat"), &["cat"], &["catalog"]);
    check(&index.scan("catalo"), &["cat"], &["catalog"]);
    check(&index.scan("catalog cat"), &["catalog", "cat"], &[]);
    let other_order = automaton(&["catalog", "cat"]);
    check(&other_order.scan("catalog"), &["catalog"], &["cat"]);
    check(&other_order.scan("concat"), &["cat"], &["catalog"]);
}

#[test]
fn scan_takes_the_leftmost_match_and_skips_what_it_covers() {
    let index = automaton(&["ab", "bc", "cd"]);
    check(&index.scan("abc"), &["ab"], &["bc", "cd"]);
    check(&index.scan("abcd"), &["ab", "cd"], &["bc"]);
    check(&index.scan("bcd"), &["bc"], &["ab", "cd"]);
    let index = automaton(&["abcd", "b", "ce"]);
    check(&index.scan("abce"), &["b", "ce"], &["abcd"]);
    let index = automaton(&["abcdefg", "bcde", "bcdef"]);
    check(&index.scan("abcdef"), &["bcdef"], &["bcde", "abcdefg"]);
    let index = automaton(&["a", "abcdefghi", "hz", "abcdefgh"]);
    check(&index.scan("abcdefghz"), &["abcdefgh"], &["a", "hz", "abcdefghi"]);
}

#[test]
fn scan_goes_on_where_a_match_ends() {
    let index = automaton(&["aa", "a"]);
    check(&index.scan("aaa"), &["aa", "a"], &[]);
    check(&index.scan("aaaa"), &["aa"], &["a"]);
    let index = automaton(&["a", "ab"]);
    check(&index.scan("xayabbbz"), &["a", "ab"], &["b"]);
}

#[test]
fn scan_compares_bytes() {
    let index = automaton(&["é", "e", "日本", "本"]);
    check(&index.scan("cafe"), &["e"], &["é"]);
    check(&index.scan("café"), &["é"], &["e"]);
    check(&index.scan("日本"), &["日本"], &["本"]);
    check(&index.scan("本日"), &["本"], &["日本"]);
    check(&index.scan("CAFE"), &[], &["e", "é"]);
}

#[test]
fn scan_of_many_terms() {
    let terms: Vec<String> = (0..5000).map(|i| format!("[{}]", i)).collect();
    let index = TermAutomaton::build(&terms).unwrap();
    let observed = index.scan("[17][4999] [5000] [0] [12");
    check(&observed, &["[17]", "[4999]", "[0]"], &["[5000]", "[12]", "[1]", "[499]"]);
}

#[test]
fn automaton_is_made_again_from_the_same_terms() {
    let terms: Vec<String> = ["cat", "catalog", "dog"].iter().map(|t| t.to_string()).collect();
    let first = TermAutomaton::build(&terms);
    let second = TermAutomaton::build(&terms);
    assert!(first.is_ok());
    assert!(second.is_ok());
    check(&first.unwrap().scan("catalog dog"), &["catalog", "dog"], &["cat"]);
    check(&second.unwrap().scan("catalog dog"), &["catalog", "dog"], &["cat"]);
}
