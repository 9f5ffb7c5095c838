use automata::nfa::NFA;
use automata::state::{State, EPSILON};

#[test]
fn test_count_unique_transitions() {
    let nfa_1 = NFA::char('a').unwrap();
    let nfa_2 = NFA::char('b').unwrap();

    let final_concat_nfa = NFA::concat_pair(&nfa_1, &nfa_2);
    let res = State::count_unique_transitions(&final_concat_nfa.states, final_concat_nfa.in_state);

    let concat_count = res.0;
    assert_eq!(concat_count, 4);

    assert_eq!(res.2.len(), concat_count.try_into().unwrap());

    let map = res.1;
    assert!(map.contains(&'a'));
    assert!(map.contains(&'b'));
    assert!(map.contains(&EPSILON));
    assert!(!map.contains(&'s'));

    let nfa_3 = NFA::char('c').unwrap();
    let nfa_4 = NFA::char('d').unwrap();

    let or_nfa = NFA::or_pair(&nfa_3, &nfa_4);
    let or_pair_count = State::count_unique_transitions(&or_nfa.states, or_nfa.in_state);

    let map = or_pair_count.1;
    assert_eq!(or_pair_count.0, 6);
    assert!(map.contains(&'c'));
    assert!(map.contains(&'d'));
    assert!(map.contains(&EPSILON));
}

#[test]
fn test_get_all_transition_symbols() {
    let mut s1 = State::new(false);

    s1.add_transition_for_symbol(EPSILON, 1);
    s1.add_transition_for_symbol('a', 1);

    s1.add_transition_for_symbol('b', 1);
    s1.add_transition_for_symbol('c', 1);
    s1.add_transition_for_symbol('j', 1);
    s1.add_transition_for_symbol('d', 1);

    let mut sui = s1.get_all_transition_symbols();
    sui.sort();

    assert_eq!(sui.len(), 6);
    assert_eq!(sui[0], 'a');
    assert_eq!(sui[1], 'b');
    assert_eq!(sui[2], 'c');
    assert_eq!(sui[3], 'd');
    assert_eq!(sui[4], 'j');
    assert_eq!(sui[5], EPSILON);
}

#[test]
fn test_add_and_get_transition() {
    let mut states = vec![State::new(false), State::new(true)];

    states[0].add_transition_for_symbol(EPSILON, 1);
    let transition_table_for_epsilon = states[0].get_transition_for_symbol(EPSILON);

    let first_state = transition_table_for_epsilon.get(0);
    match first_state {
        Some(&id) => {
            assert_eq!(id, 1);
            assert_eq!(states[id].accepting, true);
        }
        None => {
            panic!("No state found in transition table");
        }
    }
}

#[test]
fn test_multiple_transitions() {
    let mut states = vec![State::new(false), State::new(false), State::new(true)];

    states[0].add_transition_for_symbol(EPSILON, 1);

    let transition_table_for_epsilon = states[0].get_transition_for_symbol(EPSILON);
    assert_eq!(transition_table_for_epsilon.len(), 1);

    let first_state = transition_table_for_epsilon.get(0);
    match first_state {
        Some(&id) => {
            assert_eq!(states[id].accepting, false);
        }
        None => {
            panic!("No state found in transition table");
        }
    }

    states[1].add_transition_for_symbol(EPSILON, 2);

    let transition_table_for_s2_epsilon = states[1].get_transition_for_symbol(EPSILON);
    assert_eq!(transition_table_for_s2_epsilon.len(), 1);

    let second_state = transition_table_for_s2_epsilon.get(0);
    match second_state {
        Some(&id) => {
            assert_eq!(states[id].accepting, true);
        }
        None => {
            panic!("No state found in transition table");
        }
    }
}

#[test]
fn test_regex_concat() {
    let first_nfa = NFA::char('a').unwrap();
    let second_nfa = NFA::char('b').unwrap();
    let final_nfa = NFA::concat(&first_nfa, &vec![second_nfa]);

    let result_1 = final_nfa.test("ab");
    let result_2 = final_nfa.test("ac");
    let result_3 = final_nfa.test("\u{03B5}");
    let result_4 = final_nfa.test(" ab");
    let result_5 = final_nfa.test("ab ");

    assert_eq!(result_1, true);
    assert_eq!(result_2, false);
    assert_eq!(result_3, false);
    assert_eq!(result_4, false);
    assert_eq!(result_5, false);
}

#[test]
fn test_epslion_closure() {
    let first_nfa = NFA::char('a').unwrap();
    let second_nfa = NFA::char('b').unwrap();
    let final_nfa = NFA::or_pair(&first_nfa, &second_nfa);

    let epsilon_closure = State::epslion_closure(&final_nfa.states, final_nfa.in_state);

    // the new entry first, then the two copied entries in insertion order
    assert_eq!(epsilon_closure.len(), 3);
    assert_eq!(epsilon_closure[0], final_nfa.in_state);
    assert_eq!(epsilon_closure[1], first_nfa.in_state);
    assert_eq!(epsilon_closure[2], first_nfa.states.len() + second_nfa.in_state);
}

#[test]
fn test_helper_advances_by_one_symbol() {
    // one matcher step from the entry of the `ab` automaton consumes `a`
    let first_nfa = NFA::char('a').unwrap();
    let second_nfa = NFA::char('b').unwrap();
    let combined = NFA::concat_pair(&first_nfa, &second_nfa);

    let start = State::epslion_closure(&combined.states, combined.in_state);
    let after_a = State::test_helper(&combined.states, &start, 'a');
    // reaches the old exit of `a` and, by the linking epsilon edge, `b`'s entry
    assert!(after_a.contains(&1));
    assert!(after_a.contains(&2));
    let after_ab = State::test_helper(&combined.states, &after_a, 'b');
    assert!(after_ab.contains(&combined.out_state));
    // a wrong symbol leads nowhere
    let after_x = State::test_helper(&combined.states, &start, 'x');
    assert_eq!(after_x.len(), 0);
    // the reserved marker is never a valid input symbol
    let after_eps = State::test_helper(&combined.states, &start, EPSILON);
    assert_eq!(after_eps.len(), 0);
}
