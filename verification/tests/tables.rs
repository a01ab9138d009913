use turing_explorer::domain::{all_distinct, contains_name, Domain};
use turing_explorer::filter::{can_reach_halting, halting_is_terminal, passes_structural_filter};
use turing_explorer::machine::{Transition, TM};

fn s(text: &str) -> String {
    text.to_string()
}

fn names(list: &[&str]) -> Vec<String> {
    list.iter().map(|name| name.to_string()).collect()
}

fn standard() -> Domain {
    Domain {
        active_states: names(&["q0", "q1"]),
        initial_state: s("q0"),
        halting_state: s("qH"),
        symbols: names(&["_", "0", "1"]),
        blank: s("_"),
        moves: names(&["<", ">", "-"]),
    }
}

fn transition(write: &str, movement: &str, next: &str) -> Transition {
    Transition { write: s(write), movement: s(movement), next_state: s(next) }
}

fn shown(t: &Transition) -> (String, String, String) {
    (t.write.clone(), t.movement.clone(), t.next_state.clone())
}

#[test]
fn new_machine_has_no_rules() {
    let tm = TM::new();
    assert!(tm.rules.is_empty());
    assert!(tm.lookup(&s("q0"), &s("_")).is_none());
}

#[test]
fn inserted_rule_is_found_under_its_key() {
    let mut tm = TM::new();
    assert!(tm.insert(s("q0"), s("_"), transition("1", ">", "q1")).is_none());
    let found = tm.lookup(&s("q0"), &s("_")).map(shown);
    assert_eq!(found, Some((s("1"), s(">"), s("q1"))));
    assert!(tm.lookup(&s("q0"), &s("1")).is_none());
    assert!(tm.lookup(&s("q1"), &s("_")).is_none());
}

#[test]
fn insert_replaces_and_returns_the_old_transition() {
    let mut tm = TM::new();
    tm.insert(s("q0"), s("_"), transition("1", ">", "q1"));
    tm.insert(s("q1"), s("_"), transition("0", "-", "q0"));
    let old = tm.insert(s("q0"), s("_"), transition("0", "<", "qH"));
    assert_eq!(old.as_ref().map(shown), Some((s("1"), s(">"), s("q1"))));
    assert_eq!(tm.rules.len(), 2);
    assert_eq!(tm.lookup(&s("q0"), &s("_")).map(shown), Some((s("0"), s("<"), s("qH"))));
    assert_eq!(tm.lookup(&s("q1"), &s("_")).map(shown), Some((s("0"), s("-"), s("q0"))));
}

#[test]
fn keys_differ_in_state_or_symbol() {
    let mut tm = TM::new();
    tm.insert(s("q0"), s("0"), transition("0", "-", "q0"));
    tm.insert(s("q0"), s("1"), transition("1", "-", "q1"));
    tm.insert(s("q1"), s("0"), transition("_", "-", "qH"));
    assert_eq!(tm.rules.len(), 3);
    assert_eq!(tm.lookup(&s("q0"), &s("0")).map(shown), Some((s("0"), s("-"), s("q0"))));
    assert_eq!(tm.lookup(&s("q0"), &s("1")).map(shown), Some((s("1"), s("-"), s("q1"))));
    assert_eq!(tm.lookup(&s("q1"), &s("0")).map(shown), Some((s("_"), s("-"), s("qH"))));
    assert!(tm.lookup(&s("q1"), &s("1")).is_none());
}

#[test]
fn copy_of_a_transition_holds_the_same() {
    let first = transition("1", "<", "qH");
    assert_eq!(shown(&first.duplicate()), shown(&first));
}

#[test]
fn machine_that_never_enters_halting_is_rejected() {
    let mut tm = TM::new();
    tm.insert(s("q0"), s("_"), transition("1", ">", "q1"));
    tm.insert(s("q1"), s("_"), transition("1", "<", "q0"));
    let domain = standard();
    assert!(!can_reach_halting(&tm, &domain));
    assert!(halting_is_terminal(&tm, &domain));
    assert!(!passes_structural_filter(&tm, &domain));
}

#[test]
fn machine_that_leaves_halting_is_rejected() {
    let mut tm = TM::new();
    tm.insert(s("q0"), s("_"), transition("1", ">", "qH"));
    tm.insert(s("qH"), s("_"), transition("1", "<", "q0"));
    let domain = standard();
    assert!(can_reach_halting(&tm, &domain));
    assert!(!halting_is_terminal(&tm, &domain));
    assert!(!passes_structural_filter(&tm, &domain));
}

#[test]
fn machine_that_fails_both_tests_is_rejected() {
    let mut tm = TM::new();
    tm.insert(s("qH"), s("_"), transition("1", "<", "q0"));
    assert!(!passes_structural_filter(&tm, &standard()));
}

#[test]
fn machine_that_enters_and_never_leaves_halting_passes() {
    let mut tm = TM::new();
    tm.insert(s("q0"), s("_"), transition("1", ">", "q1"));
    tm.insert(s("q1"), s("_"), transition("1", "<", "qH"));
    assert!(passes_structural_filter(&tm, &standard()));
}

#[test]
fn empty_machine_cannot_reach_halting() {
    let tm = TM::new();
    let domain = standard();
    assert!(!can_reach_halting(&tm, &domain));
    assert!(halting_is_terminal(&tm, &domain));
    assert!(!passes_structural_filter(&tm, &domain));
}

#[test]
fn the_filter_goes_by_the_halting_state_of_the_domain() {
    let mut tm = TM::new();
    tm.insert(s("q0"), s("_"), transition("1", ">", "q1"));
    let mut domain = standard();
    assert!(!passes_structural_filter(&tm, &domain));
    domain.halting_state = s("q1");
    assert!(passes_structural_filter(&tm, &domain));
    domain.halting_state = s("q0");
    assert!(!passes_structural_filter(&tm, &domain));
}

#[test]
fn standard_domain_is_valid() {
    assert!(standard().is_valid());
}

#[test]
fn repeated_state_makes_a_domain_invalid() {
    let mut domain = standard();
    domain.active_states = names(&["q0", "q1", "q0"]);
    assert!(!domain.is_valid());
}

#[test]
fn repeated_symbol_makes_a_domain_invalid() {
    let mut domain = standard();
    domain.symbols = names(&["_", "0", "0"]);
    assert!(!domain.is_valid());
}

#[test]
fn repeated_move_makes_a_domain_invalid() {
    let mut domain = standard();
    domain.moves = names(&["<", ">", "<"]);
    assert!(!domain.is_valid());
}

#[test]
fn unknown_move_makes_a_domain_invalid() {
    let mut domain = standard();
    domain.moves = names(&["<", ">", "^"]);
    assert!(!domain.is_valid());
}

#[test]
fn halting_state_among_the_active_makes_a_domain_invalid() {
    let mut domain = standard();
    domain.halting_state = s("q1");
    assert!(!domain.is_valid());
}

#[test]
fn initial_state_must_be_active() {
    let mut domain = standard();
    domain.initial_state = s("qH");
    assert!(!domain.is_valid());
    domain.initial_state = s("q7");
    assert!(!domain.is_valid());
    domain.initial_state = s("q1");
    assert!(domain.is_valid());
}

#[test]
fn blank_must_be_a_symbol() {
    let mut domain = standard();
    domain.blank = s("x");
    assert!(!domain.is_valid());
    domain.blank = s("1");
    assert!(domain.is_valid());
}

#[test]
fn domain_without_active_states_is_invalid() {
    let mut domain = standard();
    domain.active_states = Vec::new();
    assert!(!domain.is_valid());
}

#[test]
fn domain_without_moves_is_valid() {
    let mut domain = standard();
    domain.moves = Vec::new();
    assert!(domain.is_valid());
}

#[test]
fn distinct_names_are_told_from_repeated() {
    assert!(all_distinct(&names(&[])));
    assert!(all_distinct(&names(&["a"])));
    assert!(all_distinct(&names(&["a", "b", "c"])));
    assert!(!all_distinct(&names(&["a", "b", "a"])));
    assert!(!all_distinct(&names(&["a", "a"])));
    assert!(!all_distinct(&names(&["a", "b", "c", "c"])));
}

#[test]
fn a_name_is_found_where_it_stands() {
    let list = names(&["a", "b", "c"]);
    assert!(contains_name(&list, &s("a")));
    assert!(contains_name(&list, &s("c")));
    assert!(!contains_name(&list, &s("d")));
    assert!(!contains_name(&names(&[]), &s("a")));
}
