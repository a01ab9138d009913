use turing_explorer::domain::Domain;
use turing_explorer::enumerate::{generate_all_turing_machines, machine_at, machine_count};
use turing_explorer::generate::{all_states, generate_all_transitions, required_keys};
use turing_explorer::machine::{Transition, TM};

fn s(text: &str) -> String {
    text.to_string()
}

fn names(list: &[&str]) -> Vec<String> {
    list.iter().map(|name| name.to_string()).collect()
}

fn standard() -> Domain {
    Domain {
        active_states: names(&["q0", "q1"]),
        initial_state: s("q0"),
        halting_state: s("qH"),
        symbols: names(&["_", "0", "1"]),
        blank: s("_"),
        moves: names(&["<", ">", "-"]),
    }
}

fn small() -> Domain {
    Domain {
        active_states: names(&["q0", "q1"]),
        initial_state: s("q0"),
        halting_state: s("qH"),
        symbols: names(&["_"]),
        blank: s("_"),
        moves: names(&["-"]),
    }
}

fn shown(t: &Transition) -> (String, String, String) {
    (t.write.clone(), t.movement.clone(), t.next_state.clone())
}

fn triple(write: &str, movement: &str, next: &str) -> (String, String, String) {
    (s(write), s(movement), s(next))
}

fn table(tm: &TM) -> Vec<(String, String, String, String, String)> {
    tm.rules
        .iter()
        .map(|r| {
            (
                r.state.clone(),
                r.read.clone(),
                r.transition.write.clone(),
                r.transition.movement.clone(),
                r.transition.next_state.clone(),
            )
        })
        .collect()
}

#[test]
fn states_are_the_active_ones_then_the_halting_one() {
    assert_eq!(all_states(&standard()), names(&["q0", "q1", "qH"]));
}

#[test]
fn standard_domain_has_twenty_seven_transitions() {
    assert_eq!(generate_all_transitions(&standard()).len(), 27);
}

#[test]
fn transition_count_is_the_product_of_the_three_sizes() {
    let domain = Domain {
        active_states: names(&["a", "b", "c", "d"]),
        initial_state: s("a"),
        halting_state: s("h"),
        symbols: names(&["_", "1"]),
        blank: s("_"),
        moves: names(&["<", ">", "-"]),
    };
    assert_eq!(generate_all_transitions(&domain).len(), 2 * 3 * 5);
}

#[test]
fn transitions_come_with_the_state_changing_fastest() {
    let all = generate_all_transitions(&standard());
    assert_eq!(shown(&all[0]), triple("_", "<", "q0"));
    assert_eq!(shown(&all[1]), triple("_", "<", "q1"));
    assert_eq!(shown(&all[2]), triple("_", "<", "qH"));
    assert_eq!(shown(&all[3]), triple("_", ">", "q0"));
    assert_eq!(shown(&all[8]), triple("_", "-", "qH"));
    assert_eq!(shown(&all[9]), triple("0", "<", "q0"));
    assert_eq!(shown(&all[13]), triple("0", ">", "q1"));
    assert_eq!(shown(&all[26]), triple("1", "-", "qH"));
}

#[test]
fn no_transition_is_generated_twice() {
    let all: Vec<_> = generate_all_transitions(&standard()).iter().map(shown).collect();
    for i in 0..all.len() {
        for j in 0..i {
            assert_ne!(all[i], all[j]);
        }
    }
}

#[test]
fn every_combination_is_a_transition() {
    let all: Vec<_> = generate_all_transitions(&standard()).iter().map(shown).collect();
    for write in ["_", "0", "1"] {
        for movement in ["<", ">", "-"] {
            for next in ["q0", "q1", "qH"] {
                assert!(all.contains(&triple(write, movement, next)));
            }
        }
    }
}

#[test]
fn domain_without_moves_has_no_transitions() {
    let mut domain = standard();
    domain.moves = Vec::new();
    assert!(generate_all_transitions(&domain).is_empty());
}

#[test]
fn keys_are_the_active_states_with_every_symbol() {
    let keys = required_keys(&standard());
    let expected: Vec<(String, String)> = [
        ("q0", "_"),
        ("q0", "0"),
        ("q0", "1"),
        ("q1", "_"),
        ("q1", "0"),
        ("q1", "1"),
    ]
    .iter()
    .map(|(state, symbol)| (s(state), s(symbol)))
    .collect();
    assert_eq!(keys, expected);
}

#[test]
fn the_halting_state_needs_no_key() {
    let keys = required_keys(&standard());
    assert!(keys.iter().all(|(state, _)| state != "qH"));
}

#[test]
fn machine_count_is_a_power() {
    assert_eq!(machine_count(6, 27), Some(387_420_489));
    assert_eq!(machine_count(2, 3), Some(9));
    assert_eq!(machine_count(1, 5), Some(5));
    assert_eq!(machine_count(10, 2), Some(1024));
}

#[test]
fn machine_count_without_keys_is_one() {
    assert_eq!(machine_count(0, 27), Some(1));
    assert_eq!(machine_count(0, 0), Some(1));
}

#[test]
fn machine_count_without_transitions_is_zero() {
    assert_eq!(machine_count(6, 0), Some(0));
}

#[test]
fn machine_count_of_one_transition_is_one() {
    assert_eq!(machine_count(usize::MAX, 1), Some(1));
}

#[test]
fn machine_count_beyond_usize_is_none() {
    assert_eq!(machine_count(64, 2), None);
    assert_eq!(machine_count(1000, 27), None);
    assert_eq!(machine_count(2, usize::MAX), None);
}

#[test]
fn machine_count_up_to_usize_is_some() {
    assert_eq!(machine_count(1, usize::MAX), Some(usize::MAX));
    assert_eq!(machine_count(31, 2), Some(1usize << 31));
}

#[test]
fn machine_zero_gives_every_key_the_first_transition() {
    let domain = standard();
    let transitions = generate_all_transitions(&domain);
    let keys = required_keys(&domain);
    let tm = machine_at(&keys, &transitions, 0).unwrap();
    assert_eq!(tm.rules.len(), 6);
    for (rule, key) in tm.rules.iter().zip(keys.iter()) {
        assert_eq!((rule.state.clone(), rule.read.clone()), key.clone());
        assert_eq!(shown(&rule.transition), triple("_", "<", "q0"));
    }
}

#[test]
fn the_digits_of_the_number_choose_the_transitions() {
    let domain = standard();
    let transitions = generate_all_transitions(&domain);
    let keys = required_keys(&domain);
    let index = 5 + 27 * (0 + 27 * (26 + 27 * (13 + 27 * (1 + 27 * 8))));
    let tm = machine_at(&keys, &transitions, index).unwrap();
    let digits = [5usize, 0, 26, 13, 1, 8];
    for j in 0..6 {
        assert_eq!(shown(&tm.rules[j].transition), shown(&transitions[digits[j]]));
        assert_eq!((tm.rules[j].state.clone(), tm.rules[j].read.clone()), keys[j]);
    }
}

#[test]
fn every_enumerated_machine_has_one_transition_for_each_key() {
    let domain = small();
    let transitions = generate_all_transitions(&domain);
    let keys = required_keys(&domain);
    for index in 0..9 {
        let tm = machine_at(&keys, &transitions, index).unwrap();
        for key in keys.iter() {
            let matching = tm.rules.iter().filter(|r| r.state == key.0 && r.read == key.1).count();
            assert_eq!(matching, 1);
            assert!(tm.lookup(&key.0, &key.1).is_some());
        }
        assert_eq!(tm.rules.len(), keys.len());
    }
}

#[test]
fn the_last_machine_gives_every_key_the_last_transition() {
    let domain = standard();
    let transitions = generate_all_transitions(&domain);
    let keys = required_keys(&domain);
    let tm = machine_at(&keys, &transitions, 387_420_488).unwrap();
    for rule in tm.rules.iter() {
        assert_eq!(shown(&rule.transition), triple("1", "-", "qH"));
    }
}

#[test]
fn there_is_no_machine_beyond_the_count() {
    let domain = standard();
    let transitions = generate_all_transitions(&domain);
    let keys = required_keys(&domain);
    assert!(machine_at(&keys, &transitions, 387_420_489).is_none());
    assert!(machine_at(&keys, &transitions, usize::MAX).is_none());
}

#[test]
fn without_transitions_there_is_no_machine() {
    let keys = required_keys(&standard());
    assert!(machine_at(&keys, &Vec::new(), 0).is_none());
}

#[test]
fn without_keys_there_is_the_empty_machine_only() {
    let transitions = generate_all_transitions(&standard());
    let tm = machine_at(&Vec::new(), &transitions, 0).unwrap();
    assert!(tm.rules.is_empty());
    assert!(machine_at(&Vec::new(), &transitions, 1).is_none());
}

#[test]
fn all_machines_of_a_small_domain() {
    let all = generate_all_turing_machines(&small());
    assert_eq!(all.len(), 9);
    let row = |state: &str, next: &str| (s(state), s("_"), s("_"), s("-"), s(next));
    assert_eq!(table(&all[0]), vec![row("q0", "q0"), row("q1", "q0")]);
    assert_eq!(table(&all[1]), vec![row("q0", "q1"), row("q1", "q0")]);
    assert_eq!(table(&all[2]), vec![row("q0", "qH"), row("q1", "q0")]);
    assert_eq!(table(&all[3]), vec![row("q0", "q0"), row("q1", "q1")]);
    assert_eq!(table(&all[7]), vec![row("q0", "q1"), row("q1", "qH")]);
    assert_eq!(table(&all[8]), vec![row("q0", "qH"), row("q1", "qH")]);
}

#[test]
fn all_machines_are_pairwise_different() {
    let all: Vec<_> = generate_all_turing_machines(&small()).iter().map(table).collect();
    for i in 0..all.len() {
        for j in 0..i {
            assert_ne!(all[i], all[j]);
        }
    }
}

#[test]
fn the_count_is_the_full_power_not_the_number_of_multisets() {
    let domain = Domain {
        active_states: names(&["q0"]),
        initial_state: s("q0"),
        halting_state: s("qH"),
        symbols: names(&["_", "1"]),
        blank: s("_"),
        moves: names(&[">"]),
    };
    let all = generate_all_turing_machines(&domain);
    assert_eq!(generate_all_transitions(&domain).len(), 4);
    assert_eq!(required_keys(&domain).len(), 2);
    assert_eq!(all.len(), 16);
}

#[test]
fn the_same_pair_of_transitions_is_assigned_both_ways() {
    let domain = Domain {
        active_states: names(&["q0"]),
        initial_state: s("q0"),
        halting_state: s("qH"),
        symbols: names(&["_", "1"]),
        blank: s("_"),
        moves: names(&[">"]),
    };
    let all: Vec<_> = generate_all_turing_machines(&domain).iter().map(table).collect();
    let row = |read: &str, write: &str, next: &str| (s("q0"), s(read), s(write), s(">"), s(next));
    assert!(all.contains(&vec![row("_", "_", "q0"), row("1", "1", "qH")]));
    assert!(all.contains(&vec![row("_", "1", "qH"), row("1", "_", "q0")]));
}

#[test]
fn the_standard_domain_fits() {
    assert!(standard().fits());
    assert!(small().fits());
}
