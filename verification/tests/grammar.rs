use kwmatcher::{compile, MatcherError, Pattern};

fn strings(texts: &[&str]) -> Vec<String> {
    texts.iter().map(|t| t.to_string()).collect()
}

fn groups(texts: &[&[&str]]) -> Vec<Vec<String>> {
    texts.iter().map(|g| strings(g)).collect()
}

fn check(pattern: &Pattern, raw: &str, positive: &[&str], negative: &[&[&str]]) {
    assert_eq!(pattern.raw_text, raw);
    assert_eq!(pattern.positive_terms, strings(positive));
    assert_eq!(pattern.negative_groups, groups(negative));
}

#[test]
fn compile_single_term() {
    check(&compile("a", true).unwrap(), "a", &["a"], &[]);
}

#[test]
fn compile_conjunction() {
    check(&compile("a&b&c", true).unwrap(), "a&b&c", &["a", "b", "c"], &[]);
}

#[test]
fn compile_one_negative_group() {
    check(&compile("a~b&c", true).unwrap(), "a~b&c", &["a"], &[&["b", "c"]]);
}

#[test]
fn compile_several_negative_groups_in_order() {
    check(&compile("a&b~c~d&e~f", true).unwrap(), "a&b~c~d&e~f", &["a", "b"], &[
        &["c"],
        &["d", "e"],
        &["f"],
    ]);
}

#[test]
fn compile_trims_terms() {
    check(&compile("  a  & b\t~\n c  &d ", true).unwrap(), "  a  & b\t~\n c  &d ", &["a", "b"], &[
        &["c", "d"],
    ]);
}

#[test]
fn compile_trims_every_kind_of_white_space() {
    let raw = "\u{a0}a\u{2003}&\u{3000}b\u{85}~\u{1680}c\u{205f}";
    check(&compile(raw, true).unwrap(), raw, &["a", "b"], &[&["c"]]);
}

#[test]
fn compile_keeps_white_space_inside_a_term() {
    check(&compile(" new york & big  apple ", true).unwrap(), " new york & big  apple ", &[
        "new york",
        "big  apple",
    ], &[]);
}

#[test]
fn compile_keeps_characters_that_are_not_white_space() {
    let raw = "\u{200b}a\u{200b}&\u{feff}b";
    check(&compile(raw, true).unwrap(), raw, &["\u{200b}a\u{200b}", "\u{feff}b"], &[]);
}

#[test]
fn compile_drops_blank_terms() {
    check(&compile("a&&b& &c&", true).unwrap(), "a&&b& &c&", &["a", "b", "c"], &[]);
    check(&compile("&a", true).unwrap(), "&a", &["a"], &[]);
}

#[test]
fn compile_drops_groups_without_terms() {
    check(&compile("a~~b", true).unwrap(), "a~~b", &["a"], &[&["b"]]);
    check(&compile("a~", true).unwrap(), "a~", &["a"], &[]);
    check(&compile("a~ & ~b~&&~", true).unwrap(), "a~ & ~b~&&~", &["a"], &[&["b"]]);
}

#[test]
fn compile_keeps_repeated_terms() {
    check(&compile("a&a~a~a&a", true).unwrap(), "a&a~a~a&a", &["a", "a"], &[&["a"], &["a", "a"]]);
}

#[test]
fn compile_beyond_ascii() {
    check(&compile("héllo & wörld ~ 東京", true).unwrap(), "héllo & wörld ~ 東京", &[
        "héllo",
        "wörld",
    ], &[&["東京"]]);
}

#[test]
fn compile_refuses_the_empty_string() {
    assert_eq!(compile("", true).unwrap_err(), MatcherError::EmptyPattern);
    assert_eq!(compile("", false).unwrap_err(), MatcherError::EmptyPattern);
}

#[test]
fn compile_refuses_a_pattern_without_positive_term() {
    for raw in ["~a", "~", "&", " ", "\t&\n~a&b", "&&&~a", "\u{3000}~b"] {
        assert_eq!(compile(raw, true).unwrap_err(), MatcherError::MissingPositiveTerm, "{:?}", raw);
    }
}

#[test]
fn compile_without_logic_keeps_the_string_whole() {
    for raw in ["a", "a&b", "a~b&c", "~", " a ", "&&", "~a", " "] {
        check(&compile(raw, false).unwrap(), raw, &[raw], &[]);
    }
}

#[test]
fn terms_list_positive_terms_then_each_group() {
    let pattern = compile("a & b ~ c ~ d & e", true).unwrap();
    assert_eq!(pattern.terms(), strings(&["a", "b", "c", "d", "e"]));
    let pattern = compile("a&a~a", true).unwrap();
    assert_eq!(pattern.terms(), strings(&["a", "a", "a"]));
    let pattern = compile("a~b", false).unwrap();
    assert_eq!(pattern.terms(), strings(&["a~b"]));
}

#[test]
fn terms_are_added_behind_what_is_there() {
    let mut out = strings(&["x"]);
    compile("a~b", true).unwrap().push_terms(&mut out);
    compile("c", true).unwrap().push_terms(&mut out);
    assert_eq!(out, strings(&["x", "a", "b", "c"]));
}
