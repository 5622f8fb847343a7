use scc050_t1::automaton::{Automaton, AutomatonError};

fn sample() -> Automaton {
    Automaton::new(
        &[0, 1, 2],
        &['a', 'b'],
        &[1],
        &[2],
        &[
            (0, 'a', 1),
            (0, 'b', 1),
            (1, 'a', 1),
            (1, 'b', 2),
            (2, 'a', 0),
            (2, 'b', 2),
        ],
    )
    .unwrap()
}

#[test]
fn accepts_ab() {
    assert!(sample().verify_chain(&['a', 'b']));
}

#[test]
fn accepts_b() {
    assert!(sample().verify_chain(&['b']));
}

#[test]
fn rejects_a() {
    assert!(!sample().verify_chain(&['a']));
}

#[test]
fn rejects_ba() {
    assert!(!sample().verify_chain(&['b', 'a']));
}

#[test]
fn accepts_bb() {
    assert!(sample().verify_chain(&['b', 'b']));
}

#[test]
fn marker_forces_empty_chain() {
    // state 1 is not accepting and has no epsilon edge, so the empty chain
    // is rejected; the marker must force that reading even among symbols
    assert!(!sample().verify_chain(&['-']));
    assert!(!sample().verify_chain(&['a', '-', 'b']));
}

#[test]
fn rejects_symbol_outside_alphabet() {
    assert!(!sample().verify_chain(&['a', 'b', 'c']));
    assert!(!sample().verify_chain(&['x']));
}

#[test]
fn query_is_deterministic() {
    let aut = sample();
    assert_eq!(aut.verify_chain(&['a', 'b']), aut.verify_chain(&['a', 'b']));
    assert_eq!(aut.verify_chain(&['b', 'a']), aut.verify_chain(&['b', 'a']));
    assert!(aut.verify_chain(&['a', 'b']));
    assert!(!aut.verify_chain(&['b', 'a']));
}

#[test]
fn builder_reports_first_invalid_transition() {
    // the second entry is the first invalid one (state 7 is undeclared);
    // the third is invalid too but must never be reported
    let r = Automaton::new(
        &[0, 1],
        &['a'],
        &[0],
        &[1],
        &[(0, 'a', 1), (7, 'a', 1), (0, 'z', 0)],
    );
    assert_eq!(
        r.err().unwrap(),
        AutomatonError::InvalidTransition((7, 'a', 1))
    );
}

#[test]
fn builder_reports_invalid_symbol() {
    let r = Automaton::new(&[0], &['a'], &[0], &[0], &[(0, 'q', 0)]);
    assert_eq!(
        r.err().unwrap(),
        AutomatonError::InvalidTransition((0, 'q', 0))
    );
}

#[test]
fn builder_accepts_valid_specification() {
    assert!(Automaton::new(
        &[0, 1],
        &['a'],
        &[0],
        &[1],
        &[(0, 'a', 1), (1, 'a', 0)],
    )
    .is_ok());
}

#[test]
fn epsilon_transition_is_always_valid() {
    let aut = Automaton::new(&[0, 1], &['a'], &[0], &[1], &[(0, '-', 1)]).unwrap();
    assert!(aut.verify_chain(&[]));
    assert!(aut.verify_chain(&['-']));
    assert!(!aut.verify_chain(&['a']));
}

#[test]
fn epsilon_cycle_terminates() {
    // states 0 and 1 form an epsilon cycle; the accepting state 2 hangs off
    // the cycle on 'a' — every query must still get a definite answer
    let aut = Automaton::new(
        &[0, 1, 2],
        &['a'],
        &[0],
        &[2],
        &[(0, '-', 1), (1, '-', 0), (1, 'a', 2)],
    )
    .unwrap();
    assert!(aut.verify_chain(&['a']));
    assert!(!aut.verify_chain(&[]));
    assert!(!aut.verify_chain(&['a', 'a']));
    assert!(!aut.verify_chain(&['-']));
}

#[test]
fn empty_chain_accepted_iff_epsilon_reaches_accepting() {
    let via_epsilon = Automaton::new(&[0, 1], &['a'], &[0], &[1], &[(0, '-', 1)]).unwrap();
    assert!(via_epsilon.verify_chain(&[]));
    let only_consuming = Automaton::new(&[0, 1], &['a'], &[0], &[1], &[(0, 'a', 1)]).unwrap();
    assert!(!only_consuming.verify_chain(&[]));
    let initial_is_accepting = Automaton::new(&[0], &['a'], &[0], &[0], &[]).unwrap();
    assert!(initial_is_accepting.verify_chain(&[]));
}

#[test]
fn multiple_initial_states_any_success_wins() {
    let aut = Automaton::new(&[0, 1, 2], &['a'], &[0, 1], &[2], &[(1, 'a', 2)]).unwrap();
    assert!(aut.verify_chain(&['a']));
}

#[test]
fn nondeterministic_choice_any_success_wins() {
    // two edges labeled 'a' leave state 0; only one of them leads to
    // acceptance, which must be enough
    let aut = Automaton::new(
        &[0, 1, 2],
        &['a'],
        &[0],
        &[2],
        &[(0, 'a', 1), (0, 'a', 2)],
    )
    .unwrap();
    assert!(aut.verify_chain(&['a']));
}

#[test]
fn epsilon_between_consuming_steps() {
    let aut = Automaton::new(
        &[0, 1, 2, 3],
        &['a', 'b'],
        &[0],
        &[3],
        &[(0, 'a', 1), (1, '-', 2), (2, 'b', 3)],
    )
    .unwrap();
    assert!(aut.verify_chain(&['a', 'b']));
    assert!(!aut.verify_chain(&['a']));
    assert!(!aut.verify_chain(&['b']));
}

#[test]
fn epsilon_after_last_symbol() {
    let aut = Automaton::new(&[0, 1, 2], &['a'], &[0], &[2], &[(0, 'a', 1), (1, '-', 2)])
        .unwrap();
    assert!(aut.verify_chain(&['a']));
    assert!(!aut.verify_chain(&[]));
}

#[test]
fn no_initial_state_rejects_everything() {
    let aut = Automaton::new(&[0], &['a'], &[], &[0], &[]).unwrap();
    assert!(!aut.verify_chain(&[]));
    assert!(!aut.verify_chain(&['a']));
}
