use regex_thompson::Alphabet;
use regex_thompson::Dfa;

#[derive(Debug, Copy, Clone, PartialEq, Eq, Hash, Ord, PartialOrd)]
enum Sigma {
    Zero,
    One,
}

use Sigma::One;
use Sigma::Zero;

impl Alphabet for Sigma {
    fn sym_eq(&self, other: &Self) -> bool {
        match (self, other) {
            (Zero, Zero) => true,
            (One, One) => true,
            _ => false,
        }
    }
}

#[test]
fn test_simple_dfa() {
    let mut dfa = Dfa::new();
    let a = dfa.add_state(true);
    let b = dfa.add_state(false);
    // Loops:
    dfa.add_transition(a, One, a);
    dfa.add_transition(b, One, b);
    // Transitions:
    dfa.add_transition(a, Zero, b);
    dfa.add_transition(b, Zero, a);

    // This DFA accepts all words with even number of Zeros
    assert!(dfa.accepts(&vec![]));
    assert!(dfa.accepts(&vec![One]));
    assert!(dfa.accepts(&vec![One, One]));
    assert!(dfa.accepts(&vec![Zero, Zero]));
    assert!(dfa.accepts(&vec![Zero, One, One, Zero]));
    assert!(dfa.accepts(&vec![Zero, One, Zero, One]));
    assert!(dfa.accepts(&vec![Zero, Zero, One, One]));
    assert!(!dfa.accepts(&vec![Zero]));
    assert!(!dfa.accepts(&vec![Zero, One]));
    assert!(!dfa.accepts(&vec![One, Zero]));
    assert!(!dfa.accepts(&vec![One, One, Zero]));
    assert!(!dfa.accepts(&vec![One, One, Zero, Zero, Zero]));
    assert!(!dfa.accepts(&vec![One, One, Zero, Zero, One, Zero]));
}

#[test]
fn test_empty_dfa_rejects_everything() {
    let dfa: Dfa<Sigma> = Dfa::new();
    assert!(!dfa.accepts(&vec![]));
    assert!(!dfa.accepts(&vec![Zero]));
}

#[test]
fn test_dfa_rejects_on_missing_transition() {
    let mut dfa = Dfa::new();
    let a = dfa.add_state(true);
    let b = dfa.add_state(false);
    dfa.add_transition(a, Zero, b);
    assert!(dfa.accepts(&vec![]));
    assert!(!dfa.accepts(&vec![Zero]));
    assert!(!dfa.accepts(&vec![One]));
    assert!(!dfa.accepts(&vec![Zero, Zero]));
}

#[test]
fn test_dfa_introspection() {
    let mut dfa = Dfa::new();
    let a = dfa.add_state(true);
    let b = dfa.add_state(false);
    dfa.add_transition(a, One, a);
    dfa.add_transition(a, Zero, b);
    dfa.add_transition(b, Zero, a);

    assert_eq!(dfa.num_states(), 2);
    assert_eq!(dfa.num_transitions(), 3);
    assert!(dfa.accepting(a));
    assert!(!dfa.accepting(b));
    assert_eq!(dfa.next(a, One), Some(a));
    assert_eq!(dfa.next(a, Zero), Some(b));
    assert_eq!(dfa.next(b, One), None);
    assert_eq!(dfa.states().len(), 2);
    assert_eq!(dfa.state(a).id, a);

    let triples = dfa.transitions();
    assert_eq!(triples.len(), 3);
    assert!(triples.contains(&(a, One, a)));
    assert!(triples.contains(&(a, Zero, b)));
    assert!(triples.contains(&(b, Zero, a)));
}

#[test]
fn test_dfa_transition_overwrite() {
    let mut dfa = Dfa::new();
    let a = dfa.add_state(false);
    let b = dfa.add_state(true);
    let c = dfa.add_state(false);
    dfa.add_transition(a, Zero, c);
    dfa.add_transition(a, Zero, b);
    assert_eq!(dfa.next(a, Zero), Some(b));
    assert_eq!(dfa.num_transitions(), 1);
    assert!(dfa.accepts(&vec![Zero]));
}
