use regex_nfa::compiler::convert_regex_to_nfa;
use regex_nfa::nfa::{rename_nfa_states, rename_states, Nfa, EPSILON};
use regex_nfa::regex::RegexExpr;

fn sym(c: char) -> Box<RegexExpr> {
    Box::new(RegexExpr::SingleChar(c))
}

/// Every state the automaton names: initial, accepting, sources, destinations.
fn named_states(m: &Nfa) -> Vec<usize> {
    let mut states = vec![m.initial_state, m.accepting_state];
    for (source, out) in &m.transitions {
        states.push(*source);
        for (_, target) in out {
            states.push(*target);
        }
    }
    states
}

fn edge_count(m: &Nfa) -> usize {
    m.transitions.iter().map(|(_, out)| out.len()).sum()
}

#[test]
fn test_generate_simple_nfa() {
    let m = convert_regex_to_nfa(&RegexExpr::SingleChar('a'));
    println!("Here is a nfa which accepts a single string 'a':");
    println!("{:?}", m);
}

#[test]
fn test_rename_nfas() {
    let mut m1 = convert_regex_to_nfa(&RegexExpr::SingleChar('a'));
    let mut m2 = convert_regex_to_nfa(&RegexExpr::SingleChar('b'));

    rename_nfa_states(&mut m1, &mut m2);

    println!("This test generated 2 simple nfas and then renamed them:");
    println!("{:?}", m1);
    println!("{:?}", m2);
}

#[test]
fn test_generate_simple_concat_nfa() {
    let expr = RegexExpr::Concat(
        Box::new(RegexExpr::SingleChar('a')),
        Box::new(RegexExpr::SingleChar('b')),
    );
    let m = convert_regex_to_nfa(&expr);
    println!("Here is a nfa which accepts a single string 'ab':");
    println!("{:?}", m);
}

#[test]
fn test_generate_simple_or_nfa() {
    let expr = RegexExpr::Or(
        Box::new(RegexExpr::SingleChar('a')),
        Box::new(RegexExpr::SingleChar('b')),
    );
    let m = convert_regex_to_nfa(&expr);
    println!("Here is a nfa which accepts the string 'a' or 'b':");
    println!("{:?}", m);
}

#[test]
fn test_generate_nfa() {
    let e1 = RegexExpr::Concat(
        Box::new(RegexExpr::SingleChar('a')),
        Box::new(RegexExpr::SingleChar('b')),
    );
    let expr = RegexExpr::Or(Box::new(RegexExpr::SingleChar('c')), Box::new(e1));
    let m = convert_regex_to_nfa(&expr);
    println!("Here is a nfa which accepts the string 'c' or 'ab':");
    println!("{:?}", m);
}

#[test]
fn test_generate_nfa2() {
    let e1 = RegexExpr::Or(
        Box::new(RegexExpr::SingleChar('a')),
        Box::new(RegexExpr::SingleChar('b')),
    );
    let expr = RegexExpr::Concat(Box::new(RegexExpr::SingleChar('c')), Box::new(e1));
    let m = convert_regex_to_nfa(&expr);
    println!("Here is a nfa which accepts the string 'ca' or 'cb':");
    println!("{:?}", m);
}

#[test]
fn test_generate_nfa3() {
    let expr = RegexExpr::Star(Box::new(RegexExpr::SingleChar('a')));
    let m = convert_regex_to_nfa(&expr);
    println!("Here is a nfa which accepts the string 'a*': ");
    println!("{:?}", m);
}

#[test]
fn test_generate_nfa4() {
    let e1 = RegexExpr::Star(Box::new(RegexExpr::SingleChar('a')));
    let expr = RegexExpr::Or(Box::new(e1), Box::new(RegexExpr::SingleChar('b')));
    let m = convert_regex_to_nfa(&expr);
    println!("Here is a nfa which accepts the string '(a*) | b': ");
    println!("{:?}", m);
}

#[test]
fn single_char_automaton_is_exact() {
    let m = convert_regex_to_nfa(&RegexExpr::SingleChar('q'));
    assert_eq!(m.initial_state, 0);
    assert_eq!(m.accepting_state, 1);
    assert_eq!(m.transitions, vec![(0, vec![('q', 1)])]);
}

#[test]
fn concat_automaton_merges_middle_state() {
    // a then b: three states, the accepting state of `a` merged into the start of `b`.
    let m = convert_regex_to_nfa(&RegexExpr::Concat(sym('a'), sym('b')));
    assert_eq!(m.initial_state, 0);
    assert_eq!(m.accepting_state, 2);
    assert_eq!(m.transitions, vec![(0, vec![('a', 1)]), (1, vec![('b', 2)])]);
}

#[test]
fn star_automaton_adds_two_states_and_four_epsilons() {
    let m = convert_regex_to_nfa(&RegexExpr::Star(sym('a')));
    assert_eq!(m.accepting_state, 3);
    assert_eq!(edge_count(&m), 5);
    let epsilons = m
        .transitions
        .iter()
        .flat_map(|(_, out)| out.iter())
        .filter(|(c, _)| *c == EPSILON)
        .count();
    assert_eq!(epsilons, 4);
}

#[test]
fn compiled_states_are_dense_with_accepting_last() {
    let expr = RegexExpr::Or(
        Box::new(RegexExpr::Star(Box::new(RegexExpr::Star(sym('a'))))),
        Box::new(RegexExpr::Concat(
            Box::new(RegexExpr::Concat(sym('b'), sym('c'))),
            Box::new(RegexExpr::Star(sym('d'))),
        )),
    );
    let m = convert_regex_to_nfa(&expr);
    let states = named_states(&m);
    let n = m.accepting_state + 1;
    for q in 0..n {
        assert!(states.contains(&q));
    }
    assert!(states.iter().all(|q| *q < n));
    assert_ne!(m.initial_state, m.accepting_state);
    assert!(m.transitions.iter().all(|(s, _)| *s != m.accepting_state));
}

#[test]
fn renaming_a_dense_automaton_changes_nothing() {
    let expr = RegexExpr::Or(Box::new(RegexExpr::Star(sym('a'))), sym('b'));
    let mut m = convert_regex_to_nfa(&expr);
    let before = m.clone();
    let n = rename_states(&mut m);
    assert_eq!(n, before.accepting_state + 1);
    assert_eq!(m.initial_state, before.initial_state);
    assert_eq!(m.accepting_state, before.accepting_state);
    assert_eq!(m.transitions, before.transitions);
}

#[test]
fn renaming_compacts_sparse_states() {
    let mut m = Nfa {
        initial_state: 40,
        accepting_state: 7,
        transitions: vec![(40, vec![('x', 12), (EPSILON, 7)]), (12, vec![('y', 7)])],
    };
    let n = rename_states(&mut m);
    assert_eq!(n, 3);
    assert_eq!(m.initial_state, 0);
    assert_eq!(m.accepting_state, 2);
    assert_eq!(m.transitions, vec![(0, vec![('x', 1), (EPSILON, 2)]), (1, vec![('y', 2)])]);
}

#[test]
fn renamed_pairs_share_no_state_and_keep_their_edges() {
    let mut m1 = convert_regex_to_nfa(&RegexExpr::Concat(sym('a'), sym('b')));
    let mut m2 = convert_regex_to_nfa(&RegexExpr::Star(sym('c')));
    let (e1, e2) = (edge_count(&m1), edge_count(&m2));
    rename_nfa_states(&mut m1, &mut m2);
    let s1 = named_states(&m1);
    let s2 = named_states(&m2);
    assert!(s1.iter().all(|q| !s2.contains(q)));
    assert!(s1.iter().all(|q| *q < 3));
    assert!(s2.iter().all(|q| (3..7).contains(q)));
    assert_eq!(edge_count(&m1), e1);
    assert_eq!(edge_count(&m2), e2);
    assert_eq!(m1.transitions, vec![(0, vec![('a', 1)]), (1, vec![('b', 2)])]);
}
