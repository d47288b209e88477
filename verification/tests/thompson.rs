use regex_thompson::is_match;
use regex_thompson::pattern_well_formed;
use regex_thompson::Nfa;
use regex_thompson::Regex;
use regex_thompson::State;

#[test]
fn test_pattern_a() {
    let re = Regex::new("a");
    assert!(re.matches("a"));
    assert!(!re.matches("ab"));
    assert!(!re.matches("aa"));
    assert!(!re.matches("b"));
}

#[test]
fn test_pattern_a_or_b() {
    let re = Regex::new("a|b");
    assert!(re.matches("a"));
    assert!(re.matches("b"));
    assert!(!re.matches("ab"));
    assert!(!re.matches("aa"));
    assert!(!re.matches("ba"));
}

#[test]
fn test_pattern_debug() {
    let re = Regex::new("(a|b)*");
    assert!(re.matches("a"));
    assert!(re.matches("b"));
    assert!(re.matches("aa"));
    assert!(re.matches("bb"));
    assert!(re.matches("ab"));
    assert!(re.matches("ba"));
    assert!(re.matches("aaa"));
    assert!(re.matches("aba"));
}

#[test]
fn test_pattern_complex() {
    let re = Regex::new("a(b|c)*d");
    assert!(re.matches("ad"));
    assert!(re.matches("abd"));
    assert!(re.matches("acd"));
    assert!(re.matches("abbd"));
    assert!(re.matches("abcd"));
    assert!(re.matches("accd"));
    assert!(re.matches("acbd"));
    assert!(re.matches("abbbd"));
    assert!(re.matches("acccd"));
    assert!(!re.matches("a"));
    assert!(!re.matches("b"));
    assert!(!re.matches("c"));
    assert!(!re.matches("d"));
    assert!(!re.matches("ab"));
    assert!(!re.matches("ac"));
    assert!(!re.matches("aad"));
}

#[test]
fn test_fragment_concat_ab() {
    let mut nfa = Nfa::new();
    let f1 = nfa.symbol('a');
    let f2 = nfa.symbol('b');
    let f3 = nfa.concat(f1, f2);

    assert!(nfa.matches(f3.start, "ab"));
    assert!(!nfa.matches(f3.start, "aba"));
    assert!(!nfa.matches(f3.start, "a"));
    assert!(!nfa.matches(f3.start, "b"));
}

#[test]
fn test_fragment_union_ab() {
    let mut nfa = Nfa::new();
    let f1 = nfa.symbol('a');
    let f2 = nfa.symbol('b');
    let f3 = nfa.union(f1, f2);

    assert!(!nfa.matches(f3.start, "ab"));
    assert!(!nfa.matches(f3.start, "aba"));
    assert!(nfa.matches(f3.start, "a"));
    assert!(nfa.matches(f3.start, "b"));
}

#[test]
fn test_literal_pattern_matches_itself_only() {
    assert!(is_match("abc", "abc"));
    assert!(!is_match("abc", "abcx"));
    assert!(!is_match("abc", "ab"));
    assert!(!is_match("abc", ""));
}

#[test]
fn test_union_law_instances() {
    let inputs = ["ab", "cd", "a", "c", "abcd", ""];
    for s in inputs {
        let union = is_match("ab|cd", s);
        let either = is_match("ab", s) || is_match("cd", s);
        assert_eq!(union, either);
    }
}

#[test]
fn test_closure_law_instances() {
    assert!(is_match("(ab)*", ""));
    assert!(is_match("(ab)*", "ab"));
    assert!(is_match("(ab)*", "abab"));
    assert!(is_match("(ab)*", "ababab"));
    assert!(!is_match("(ab)*", "aba"));
}

#[test]
fn test_star_matches_empty_and_long_strings() {
    let re = Regex::new("(a|b)*");
    assert!(re.matches(""));
    assert!(re.matches("abab"));
    assert!(re.matches("bbbb"));
    assert!(!re.matches("abc"));
}

#[test]
fn test_wildcard_fallback() {
    assert!(is_match(".", "x"));
    assert!(is_match(".", "."));
    assert!(!is_match(".", "xy"));
    assert!(!is_match(".", ""));
    assert!(is_match("a.c", "abc"));
    assert!(is_match("a.c", "axc"));
    assert!(!is_match("a.c", "ac"));
}

#[test]
fn test_epsilon_closure_idempotent() {
    let mut nfa = Nfa::new();
    let f1 = nfa.symbol('a');
    let f2 = nfa.symbol('b');
    let f3 = nfa.union(f1, f2);
    let g = nfa.closure(f3);

    let mut once = nfa.epsilon_closure(g.start);
    let mut twice = nfa.multi_epsilon_closure(once.clone());
    once.sort();
    twice.sort();
    assert_eq!(once, twice);

    let mut from_end = nfa.epsilon_closure(f3.end);
    let mut from_end_twice = nfa.multi_epsilon_closure(from_end.clone());
    from_end.sort();
    from_end_twice.sort();
    assert_eq!(from_end, from_end_twice);
}

#[test]
fn test_epsilon_insert_is_idempotent() {
    let mut st = State::new(0, false);
    st.add_epsilon_transition(5);
    st.add_epsilon_transition(5);
    st.add_epsilon_transition(7);
    st.add_epsilon_transition(5);
    assert_eq!(st.next_epsilon().len(), 2);
    assert!(st.next_epsilon().contains(&5));
    assert!(st.next_epsilon().contains(&7));
}

#[test]
fn test_pattern_well_formed() {
    assert!(pattern_well_formed("a"));
    assert!(pattern_well_formed("a(b|c)*d"));
    assert!(pattern_well_formed("(a|b)*"));
    assert!(pattern_well_formed("."));
    assert!(!pattern_well_formed(""));
    assert!(!pattern_well_formed("*"));
    assert!(!pattern_well_formed("a|"));
    assert!(!pattern_well_formed("|a"));
    assert!(!pattern_well_formed("a|*"));
}

#[test]
fn test_well_formed_patterns_compile() {
    let patterns = ["a", "a(b|c)*d", "(a|b)*", "a|b"];
    for p in patterns {
        assert!(pattern_well_formed(p));
        let re = Regex::new(p);
        let _ = re.matches("a");
    }
}
