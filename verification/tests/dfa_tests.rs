use automata::dfa::DFA;
use automata::nfa::NFA;
use automata::state::EPSILON;

#[test]
fn test_get_dfa_transition_table() {
    let first_nfa = NFA::char('a').unwrap();
    let second_nfa = NFA::char('b').unwrap();

    let final_nfa = NFA::or_pair(&first_nfa, &second_nfa);

    let nfa_table = final_nfa.get_transition_table().unwrap();
    let dfa_table = DFA::get_transition_table(&nfa_table.0, final_nfa.in_state, nfa_table.1);

    // the start state comes first: the epsilon closure of the entry
    assert!(dfa_table.0.rows.len() >= 1);
    assert_eq!(
        dfa_table.0.rows[0].key,
        vec![first_nfa.in_state, first_nfa.states.len() + second_nfa.in_state, final_nfa.in_state]
    );
}

#[test]
fn test_dfa_new() {
    let dfa = DFA::new();
    assert_eq!(dfa.states.len(), 2);
    assert_eq!(dfa.states[dfa.in_state].accepting, false);
    assert_eq!(dfa.states[dfa.out_state].accepting, true);
}

#[test]
fn test_dfa_execution_single_symbol() {
    let a = NFA::char('a').unwrap();
    let (table, accept) = a.get_transition_table().unwrap();
    let (dfa_table, accepting) = DFA::get_transition_table(&table, a.in_state, accept);

    let start = dfa_table.rows[0].key.clone();
    assert_eq!(DFA::test(&dfa_table, &start, accept, "a"), true);
    assert_eq!(DFA::test(&dfa_table, &start, accept, ""), false);
    assert_eq!(DFA::test(&dfa_table, &start, accept, "aa"), false);
    assert_eq!(DFA::test(&dfa_table, &start, accept, "b"), false);

    // exactly the keys containing the accept identifier are accepting
    for key in &accepting {
        assert!(key.contains(&accept));
    }
}

#[test]
fn test_determinization_preserves_language_bounded() {
    // the automaton for `xy*|z`, checked against its DFA on every string
    // up to length three over a four-symbol alphabet
    let x = NFA::char('x').unwrap();
    let y = NFA::char('y').unwrap();
    let z = NFA::char('z').unwrap();
    let left = NFA::concat(&x, &vec![NFA::rep(&y)]);
    let machine = NFA::or_pair(&left, &z);

    let (table, accept) = machine.get_transition_table().unwrap();
    let (dfa_table, _accepting) = DFA::get_transition_table(&table, machine.in_state, accept);
    let start = dfa_table.rows[0].key.clone();

    let symbols = ['x', 'y', 'z', 'a'];
    let mut inputs: Vec<String> = vec![String::new()];
    let mut frontier: Vec<String> = vec![String::new()];
    for _ in 0..3 {
        let mut next_frontier = Vec::new();
        for w in &frontier {
            for c in symbols {
                let mut w2 = w.clone();
                w2.push(c);
                next_frontier.push(w2);
            }
        }
        inputs.extend(next_frontier.iter().cloned());
        frontier = next_frontier;
    }

    for w in &inputs {
        assert_eq!(
            machine.test(w),
            DFA::test(&dfa_table, &start, accept, w),
            "disagreement on input {:?}",
            w
        );
    }
}

#[test]
fn test_get_epsilon_and_unique_transitions() {
    let a = NFA::char('a').unwrap();
    let b = NFA::char('b').unwrap();
    let machine = NFA::or_pair(&a, &b);
    let (table, _accept) = machine.get_transition_table().unwrap();

    let (eps_rows, alphabet) = DFA::get_epsilon_and_unique_transitions(&table);

    assert_eq!(eps_rows.len(), table.rows.len());
    assert!(alphabet.contains(&'a'));
    assert!(alphabet.contains(&'b'));
    assert!(!alphabet.contains(&EPSILON));

    // the entry's row lists the state itself first, then its epsilon
    // destinations: the copied entries of the two branches
    let entry_row = eps_rows.iter().find(|r| r.0 == machine.in_state).unwrap();
    assert_eq!(entry_row.1, vec![machine.in_state, a.in_state, a.states.len() + b.in_state]);
}

#[test]
fn test_get_accepting_states() {
    let a = NFA::char('a').unwrap();
    let b = NFA::char('b').unwrap();
    let machine = NFA::or_pair(&a, &b);
    let (table, accept) = machine.get_transition_table().unwrap();
    let (dfa_table, accepting) = DFA::get_transition_table(&table, machine.in_state, accept);

    let listed = DFA::get_accepting_states(&dfa_table, accept);
    assert_eq!(listed.len(), accepting.len());
    for key in &listed {
        assert!(key.contains(&accept));
    }
    // both one-symbol inputs end in an accepting DFA state, so there is one
    assert!(listed.len() >= 1);
}

#[test]
fn test_flatten_twice_same_shape() {
    let a = NFA::char('a').unwrap();
    let b = NFA::char('b').unwrap();
    let machine = NFA::or_pair(&a, &b);
    let (t1, acc1) = machine.get_transition_table().unwrap();
    let (t2, acc2) = machine.get_transition_table().unwrap();
    assert_eq!(acc1, acc2);
    assert_eq!(t1.rows.len(), t2.rows.len());
    for (r1, r2) in t1.rows.iter().zip(t2.rows.iter()) {
        assert_eq!(r1.id, r2.id);
        assert_eq!(r1.cells.len(), r2.cells.len());
        for (c1, c2) in r1.cells.iter().zip(r2.cells.iter()) {
            assert_eq!(c1.symbol, c2.symbol);
            assert_eq!(c1.transition, c2.transition);
        }
    }
}
