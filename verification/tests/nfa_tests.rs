use automata::nfa::{CELL, NFA};
use automata::state::{AutomatonError, State, EPSILON};

#[test]
fn test_char() {
    let nfa = NFA::char('a').unwrap();
    assert_eq!(nfa.states[nfa.in_state].accepting, false);
    assert_eq!(nfa.states[nfa.out_state].accepting, true);

    let first_transition = nfa.states[nfa.in_state].get_transition_for_symbol('a');

    assert_eq!(first_transition[0], nfa.out_state);
    assert_eq!(first_transition.len(), 1);
}

#[test]
fn test_add_epsilon_transition() {
    let mut nfa = NFA::new();
    nfa.add_epsilon_transition();

    assert_eq!(nfa.states[nfa.in_state].accepting, false);
    assert_eq!(nfa.states[nfa.out_state].accepting, true);

    let first_transition = nfa.states[nfa.in_state].get_transition_for_symbol(EPSILON);

    assert_eq!(first_transition[0], nfa.out_state);
    assert_eq!(first_transition.len(), 1);
}

#[test]
fn test_concat_pair() {
    let first = NFA::char('a').unwrap();
    let second = NFA::char('b').unwrap();

    let combine_transition = NFA::concat_pair(&first, &second);

    // in the combined arena, `first` keeps its indices and `second` is
    // shifted past them
    let first_in = first.in_state;
    let first_out = first.out_state;
    let offset = first.states.len();
    let second_in = offset + second.in_state;
    let second_out = offset + second.out_state;

    assert_eq!(combine_transition.states[first_in].accepting, false);
    assert_eq!(combine_transition.states[first_out].accepting, false);

    assert_eq!(combine_transition.states[second_in].accepting, false);
    assert_eq!(combine_transition.states[second_out].accepting, true);

    assert_eq!(combine_transition.states[combine_transition.in_state].accepting, false);
    assert_eq!(combine_transition.states[combine_transition.out_state].accepting, true);

    let first_transition = combine_transition.states[first_in].get_transition_for_symbol('a');

    assert_eq!(first_transition[0], first_out);
    assert_eq!(first_transition.len(), 1);

    let epsilon_transition = combine_transition.states[first_out].get_transition_for_symbol(EPSILON);
    assert_eq!(epsilon_transition.len(), 1);

    let second_transition = combine_transition.states[second_in].get_transition_for_symbol('b');
    assert_eq!(second_transition.len(), 1);

    assert_eq!(second_transition[0], second_out);
}

#[test]
fn test_concat() {
    let first = NFA::char('a').unwrap();
    let second = NFA::char('b').unwrap();
    let third = NFA::char('c').unwrap();

    let array_of_nfa = vec![second, third];

    let final_nfa = NFA::concat(&first, &array_of_nfa);

    // indices in the combined arena: first at 0..2, second at 2..4, third at 4..6
    assert_eq!(final_nfa.states[final_nfa.in_state].accepting, false);
    assert_eq!(final_nfa.states[final_nfa.out_state].accepting, true);

    assert_eq!(final_nfa.states[0].accepting, false);
    assert_eq!(final_nfa.states[1].accepting, false);

    assert_eq!(final_nfa.states[2].accepting, false);
    assert_eq!(final_nfa.states[3].accepting, false);

    assert_eq!(final_nfa.states[4].accepting, false);
    assert_eq!(final_nfa.states[5].accepting, true);

    let first_transition = final_nfa.states[0].get_transition_for_symbol('a');
    assert_eq!(first_transition.len(), 1);
    assert_eq!(first_transition[0], 1);

    let epsilon_transition_first = final_nfa.states[1].get_transition_for_symbol(EPSILON);
    assert_eq!(epsilon_transition_first.len(), 1);
    assert_eq!(epsilon_transition_first[0], 2);

    let second_transition = final_nfa.states[2].get_transition_for_symbol('b');
    assert_eq!(second_transition.len(), 1);
    assert_eq!(second_transition[0], 3);

    let epsilon_transition_second = final_nfa.states[3].get_transition_for_symbol(EPSILON);
    assert_eq!(epsilon_transition_second.len(), 1);
    assert_eq!(epsilon_transition_second[0], 4);

    let third_transition = final_nfa.states[4].get_transition_for_symbol('c');
    assert_eq!(third_transition.len(), 1);
    assert_eq!(third_transition[0], 5);
}

#[test]
fn test_or_pair() {
    let first = NFA::char('a').unwrap();
    let second = NFA::char('b').unwrap();
    let final_nfa = NFA::or_pair(&first, &second);

    let offset = first.states.len();
    let first_in = first.in_state;
    let first_out = first.out_state;
    let second_in = offset + second.in_state;
    let second_out = offset + second.out_state;

    assert_eq!(final_nfa.states[final_nfa.in_state].accepting, false);
    assert_eq!(final_nfa.states[final_nfa.out_state].accepting, true);

    assert_eq!(final_nfa.states[first_in].accepting, false);
    assert_eq!(final_nfa.states[first_out].accepting, false);

    assert_eq!(final_nfa.states[second_in].accepting, false);
    assert_eq!(final_nfa.states[second_out].accepting, false);

    let epsilon_transit = final_nfa.states[final_nfa.in_state].get_transition_for_symbol(EPSILON);
    assert_eq!(epsilon_transit.len(), 2);
    assert_eq!(epsilon_transit[0], first_in);
    assert_eq!(epsilon_transit[1], second_in);

    let first_out_transit = final_nfa.states[first_out].get_transition_for_symbol(EPSILON);
    assert_eq!(first_out_transit.len(), 1);
    assert_eq!(first_out_transit[0], final_nfa.out_state);

    let second_out_transit = final_nfa.states[second_out].get_transition_for_symbol(EPSILON);
    assert_eq!(second_out_transit.len(), 1);
    assert_eq!(second_out_transit[0], final_nfa.out_state);
}

#[test]
fn test_or_rep() {
    let a_state_machine = NFA::char('a').unwrap();

    let final_nfa = NFA::rep(&a_state_machine);

    let a_in = a_state_machine.in_state;
    let a_out = a_state_machine.out_state;

    assert_eq!(final_nfa.states[final_nfa.in_state].accepting, false);
    assert_eq!(final_nfa.states[final_nfa.out_state].accepting, true);

    assert_eq!(final_nfa.states[a_in].accepting, false);
    assert_eq!(final_nfa.states[a_out].accepting, false);

    let first_transitions = final_nfa.states[final_nfa.in_state].get_transition_for_symbol(EPSILON);

    assert_eq!(first_transitions.len(), 2);
    assert_eq!(first_transitions[0], a_in);

    // the new entry also jumps straight to the new exit (zero repetitions)
    assert_eq!(first_transitions[1], final_nfa.out_state);

    let second_transition = final_nfa.states[a_in].get_transition_for_symbol('a');

    assert_eq!(second_transition[0], a_out);
    assert_eq!(second_transition.len(), 1);

    let third_transition = final_nfa.states[a_out].get_transition_for_symbol(EPSILON);

    assert_eq!(third_transition.len(), 1);
    assert_eq!(third_transition[0], final_nfa.out_state);

    let fourth_transition = final_nfa.states[final_nfa.out_state].get_transition_for_symbol(EPSILON);

    assert_eq!(fourth_transition.len(), 1);
    assert_eq!(fourth_transition[0], a_in);
}

#[test]
fn test_get_transition_table() {
    let nfa_1 = NFA::char('a').unwrap();
    let nfa_2 = NFA::char('b').unwrap();
    let or_machine_nfa = NFA::or_pair(&nfa_1, &nfa_2);
    let transition_table = or_machine_nfa.get_transition_table().unwrap();
    assert_eq!(transition_table.1, or_machine_nfa.out_state);
    assert_eq!(transition_table.0.rows.len(), 6);
}

#[test]
fn test_cell_construction() {
    let mut cell = CELL::new('a');
    assert_eq!(cell.symbol, 'a');
    assert_eq!(cell.transition.len(), 0);
    cell.add_transition(5);
    cell.add_transition(5);
    assert_eq!(cell.transition, vec![5, 5]);

    let eps_cell = CELL::new_epslion();
    assert_eq!(eps_cell.symbol, EPSILON);
    assert_eq!(eps_cell.transition.len(), 0);
}

#[test]
fn test_char_rejects_epsilon() {
    match NFA::char(EPSILON) {
        Err(e) => assert_eq!(e, AutomatonError::InvalidSymbol),
        Ok(_) => panic!("the reserved marker must be rejected"),
    }
}

#[test]
fn test_flatten_rejects_dangling_edge() {
    let mut s0 = State::new(false);
    s0.add_transition_for_symbol('a', 7);
    let broken = NFA { states: vec![s0, State::new(true)], in_state: 0, out_state: 1 };
    match broken.get_transition_table() {
        Err(e) => assert_eq!(e, AutomatonError::InconsistentGraph),
        Ok(_) => panic!("a dangling edge must be rejected"),
    }
}

#[test]
fn test_flatten_merges_and_dedups() {
    // the same symbol appended twice with a repeated destination is merged
    // into one cell with a deduplicated destination list
    let mut s0 = State::new(false);
    s0.add_transition_for_symbol('a', 1);
    s0.add_transition_for_symbol('a', 1);
    let n = NFA { states: vec![s0, State::new(true)], in_state: 0, out_state: 1 };
    let (table, accept) = n.get_transition_table().unwrap();
    assert_eq!(accept, 1);
    assert_eq!(table.rows.len(), 2);
    let row0 = table.rows.iter().find(|r| r.id == 0).unwrap();
    assert_eq!(row0.cells.len(), 1);
    assert_eq!(row0.cells[0].symbol, 'a');
    assert_eq!(row0.cells[0].transition, vec![1]);
}

#[test]
fn test_literal_language() {
    let x = NFA::char('x').unwrap();
    assert_eq!(x.test("x"), true);
    assert_eq!(x.test(""), false);
    assert_eq!(x.test("xx"), false);
}

#[test]
fn test_concat_associative_language() {
    let a = NFA::char('a').unwrap();
    let b = NFA::char('b').unwrap();
    let c = NFA::char('c').unwrap();

    let left = NFA::concat(&NFA::concat(&a, &vec![b.duplicate()]), &vec![c.duplicate()]);
    let right = NFA::concat(&a, &vec![b, c]);

    for w in ["", "a", "ab", "abc", "abcc", "cba", "aabc"] {
        assert_eq!(left.test(w), right.test(w));
    }
    assert_eq!(left.test("abc"), true);
    assert_eq!(left.test("ab"), false);
}

#[test]
fn test_alternate_commutative_language() {
    let a = NFA::char('a').unwrap();
    let b = NFA::char('b').unwrap();
    let ab = NFA::or_pair(&a, &b);
    let ba = NFA::or_pair(&b, &a);
    for w in ["", "a", "b", "c", "ab"] {
        assert_eq!(ab.test(w), ba.test(w));
    }
    assert_eq!(ab.test("a"), true);
    assert_eq!(ab.test("b"), true);
    assert_eq!(ab.test(""), false);
}

#[test]
fn test_star_language() {
    let a = NFA::char('a').unwrap();
    let star = NFA::rep(&a);
    assert_eq!(star.test(""), true);
    assert_eq!(star.test("a"), true);
    assert_eq!(star.test("aaaa"), true);
    assert_eq!(star.test("b"), false);
}

#[test]
fn test_scenario_x_ystar_or_z() {
    // the automaton for `xy*|z`
    let x = NFA::char('x').unwrap();
    let y = NFA::char('y').unwrap();
    let z = NFA::char('z').unwrap();
    let left = NFA::concat(&x, &vec![NFA::rep(&y)]);
    let machine = NFA::or_pair(&left, &z);

    assert_eq!(machine.test("x"), true);
    assert_eq!(machine.test("xy"), true);
    assert_eq!(machine.test("xyy"), true);
    assert_eq!(machine.test("z"), true);
    assert_eq!(machine.test("a"), false);
    assert_eq!(machine.test(""), false);
}
