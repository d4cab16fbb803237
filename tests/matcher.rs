use regex_nfa::compiler::convert_regex_to_nfa;
use regex_nfa::matcher::run_nfa;
use regex_nfa::nfa::{rename_states, Nfa, EPSILON};
use regex_nfa::parser::parse_regex;
use regex_nfa::regex::RegexExpr;

fn sym(c: char) -> Box<RegexExpr> {
    Box::new(RegexExpr::SingleChar(c))
}

#[test]
fn test_run_nfa1() {
    let m = convert_regex_to_nfa(&RegexExpr::SingleChar('a'));

    assert!(run_nfa(&m, "a"));
    assert!(!run_nfa(&m, ""));
    assert!(!run_nfa(&m, "aa"));
    assert!(!run_nfa(&m, "c"));
}

#[test]
fn test_run_nfa2() {
    let expr = RegexExpr::Concat(
        Box::new(RegexExpr::SingleChar('a')),
        Box::new(RegexExpr::SingleChar('b')),
    );
    let m = convert_regex_to_nfa(&expr);

    assert!(run_nfa(&m, "ab"));
    assert!(!run_nfa(&m, "a"));
    assert!(!run_nfa(&m, ""));
    assert!(!run_nfa(&m, "aa"));
    assert!(!run_nfa(&m, "c"));
}

#[test]
fn test_run_nfa3() {
    let expr = RegexExpr::Star(Box::new(RegexExpr::SingleChar('a')));
    let m = convert_regex_to_nfa(&expr);

    assert!(run_nfa(&m, ""));
    assert!(run_nfa(&m, "a"));
    assert!(run_nfa(&m, "aa"));
    assert!(run_nfa(&m, "aaaaaa"));

    assert!(!run_nfa(&m, "ab"));
    assert!(!run_nfa(&m, "z"));
    assert!(!run_nfa(&m, "c"));
    assert!(!run_nfa(&m, "ca"));
}

#[test]
fn test_run_nfa4() {
    // the regular expression (a*)*|(bc)(d*)
    let rhs_expr = RegexExpr::Concat(
        Box::new(RegexExpr::Concat(
            Box::new(RegexExpr::SingleChar('b')),
            Box::new(RegexExpr::SingleChar('c')),
        )),
        Box::new(RegexExpr::Star(Box::new(RegexExpr::SingleChar('d')))),
    );
    let lhs_expr = RegexExpr::Star(Box::new(RegexExpr::Star(Box::new(RegexExpr::SingleChar(
        'a',
    )))));
    let expr = RegexExpr::Or(Box::new(lhs_expr), Box::new(rhs_expr));
    let m = convert_regex_to_nfa(&expr);

    // these strings match
    assert!(run_nfa(&m, ""));
    assert!(run_nfa(&m, "a"));
    assert!(run_nfa(&m, "aa"));
    assert!(run_nfa(&m, "aaaaaa"));
    assert!(run_nfa(&m, "bc"));
    assert!(run_nfa(&m, "bcd"));
    assert!(run_nfa(&m, "bcdd"));
    assert!(run_nfa(&m, "bcdddddd"));

    // these strings don't match
    assert!(!run_nfa(&m, "abc"));
    assert!(!run_nfa(&m, "abcd"));
    assert!(!run_nfa(&m, "abcd"));
    assert!(!run_nfa(&m, "dabc"));
    assert!(!run_nfa(&m, "dbc"));
    assert!(!run_nfa(&m, "dbcd"));
    assert!(!run_nfa(&m, "d"));
    assert!(!run_nfa(&m, "bccd"));
    assert!(!run_nfa(&m, "bbcd"));
}

#[test]
fn single_char_accepts_only_itself_over_the_alphabet() {
    let alphabet: Vec<char> = ('a'..='z').chain('A'..='Z').chain('0'..='9').collect();
    for &c in &alphabet {
        let m = convert_regex_to_nfa(&RegexExpr::SingleChar(c));
        assert!(run_nfa(&m, &c.to_string()));
        assert!(!run_nfa(&m, ""));
        assert!(!run_nfa(&m, &format!("{}{}", c, c)));
        for &d in &alphabet {
            if d != c {
                assert!(!run_nfa(&m, &d.to_string()));
            }
        }
    }
}

#[test]
fn star_round_trip() {
    let m = convert_regex_to_nfa(&RegexExpr::Star(sym('a')));
    for w in ["", "a", "aa", "aaaaaa"] {
        assert!(run_nfa(&m, w));
    }
    for w in ["ab", "b", "ba"] {
        assert!(!run_nfa(&m, w));
    }
}

#[test]
fn concat_accepts_exactly_ab() {
    let m = convert_regex_to_nfa(&RegexExpr::Concat(sym('a'), sym('b')));
    assert!(run_nfa(&m, "ab"));
    for w in ["a", "b", "", "ba", "abc"] {
        assert!(!run_nfa(&m, w));
    }
}

#[test]
fn or_of_stars_and_concats() {
    let expr = RegexExpr::Or(
        Box::new(RegexExpr::Star(Box::new(RegexExpr::Star(sym('a'))))),
        Box::new(RegexExpr::Concat(
            Box::new(RegexExpr::Concat(sym('b'), sym('c'))),
            Box::new(RegexExpr::Star(sym('d'))),
        )),
    );
    let m = convert_regex_to_nfa(&expr);
    for w in ["", "a", "aa", "bc", "bcd", "bcdddddd"] {
        assert!(run_nfa(&m, w));
    }
    for w in ["abc", "dabc", "d", "bccd", "bbcd"] {
        assert!(!run_nfa(&m, w));
    }
}

#[test]
fn unmatched_character_rejects_without_error() {
    let m = convert_regex_to_nfa(&RegexExpr::Star(sym('a')));
    assert!(!run_nfa(&m, "a#a"));
    assert!(!run_nfa(&m, "é"));
}

#[test]
fn parse_compile_and_match() {
    let expr = parse_regex("(ab|c)*d").unwrap();
    let m = convert_regex_to_nfa(&expr);
    for w in ["d", "abd", "cd", "abcabd", "ccccd"] {
        assert!(run_nfa(&m, w));
    }
    for w in ["", "ab", "ad", "abcdd", "bad"] {
        assert!(!run_nfa(&m, w));
    }
}

#[test]
fn nested_stars_and_groups() {
    let expr = parse_regex("a(b|c)*a").unwrap();
    let m = convert_regex_to_nfa(&expr);
    for w in ["aa", "aba", "acbca"] {
        assert!(run_nfa(&m, w));
    }
    for w in ["a", "ab", "abab", "ba"] {
        assert!(!run_nfa(&m, w));
    }
}

#[test]
fn sparse_hand_built_automaton_runs() {
    let m = Nfa {
        initial_state: 40,
        accepting_state: 7,
        transitions: vec![(40, vec![('x', 12), (EPSILON, 7)]), (12, vec![('y', 7)])],
    };
    assert!(run_nfa(&m, ""));
    assert!(run_nfa(&m, "xy"));
    assert!(!run_nfa(&m, "x"));
    assert!(!run_nfa(&m, "y"));
    assert!(!run_nfa(&m, "xyy"));
}

#[test]
fn largest_state_number_runs() {
    let m = Nfa {
        initial_state: usize::MAX,
        accepting_state: 0,
        transitions: vec![(usize::MAX, vec![('a', 0)]), (0, vec![('b', usize::MAX)])],
    };
    assert!(run_nfa(&m, "a"));
    assert!(run_nfa(&m, "aba"));
    assert!(!run_nfa(&m, "ab"));
    assert!(!run_nfa(&m, ""));
}

#[test]
fn renaming_keeps_the_language() {
    let mut m = Nfa {
        initial_state: 9,
        accepting_state: 3,
        transitions: vec![(9, vec![('p', 5), ('q', 3)]), (5, vec![(EPSILON, 9)])],
    };
    let words = ["", "p", "q", "pq", "ppq", "qp", "pp"];
    let before: Vec<bool> = words.iter().map(|w| run_nfa(&m, w)).collect();
    assert_eq!(before, vec![false, false, true, true, true, false, false]);
    rename_states(&mut m);
    let after: Vec<bool> = words.iter().map(|w| run_nfa(&m, w)).collect();
    assert_eq!(before, after);
}

#[test]
fn no_transitions_accepts_nothing() {
    let m = Nfa { initial_state: 0, accepting_state: 1, transitions: vec![] };
    assert!(!run_nfa(&m, ""));
    assert!(!run_nfa(&m, "a"));
}
