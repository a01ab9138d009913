//! The bounded tape simulator.

use crate::domain::Domain;
use crate::machine::{lemma_table_of_rule, selects, Key, Table, TM};
use crate::moves::{direction_is_known, is_direction, movement_for_direction};
use crate::run::{
    config_after, ending, lemma_ends_where_it_stops, lemma_outcome_of_ending,
    lemma_rejected_beyond_ceiling, outcome, stopped, Ending,
};
use crate::tape::Tape;
use vstd::prelude::*;

verus! {

/// Whether every transition of `table` moves the head in a known direction.
pub open spec fn moves_known(table: Table) -> bool {
    forall|key: Key| #[trigger] table.contains_key(key) ==> is_direction(table[key].movement)
}

/// Tells whether every transition of `tm` moves the head in a known
/// direction, as `sim` needs it.
pub fn all_moves_known(tm: &TM) -> (known: bool)
    requires
        tm.wf(),
    ensures
        known == moves_known(tm@),
{
    let mut i: usize = 0;
    while i < tm.rules.len()
        invariant
            tm.wf(),
            i <= tm.rules@.len(),
            forall|j: int|
                0 <= j < i ==> is_direction((#[trigger] tm.rules@[j]).transition.movement@),
        decreases tm.rules@.len() - i,
    {
        if !direction_is_known(&tm.rules[i].transition.movement) {
            proof {
                lemma_table_of_rule(tm.rules@, i as int);
            }
            return false;
        }
        i += 1;
    }
    proof {
        assert forall|key: Key| #[trigger] tm@.contains_key(key) implies is_direction(
            tm@[key].movement,
        ) by {
            let j = choose|j: int| selects(tm.rules@, key, j);
            lemma_table_of_rule(tm.rules@, j);
        }
    }
    true
}

/// Runs `tm` from the domain's initial state on a blank tape, for at most
/// `max_steps` transitions. Each step looks up the transition for the
/// current state and the symbol under the head, writes, moves and changes
/// state. The run halts when it enters the halting state and stalls when it
/// finds no transition; a run that has done neither after `max_steps`
/// transitions is cut off.
pub fn run_bounded(tm: &TM, domain: &Domain, max_steps: usize) -> (end: Ending)
    requires
        tm.wf(),
        moves_known(tm@),
    ensures
        end == ending(tm@, domain.setting(), max_steps),
{
    let ghost table = tm@;
    let ghost s = domain.setting();
    let mut steps: usize = 0;
    let mut current_state = domain.initial_state.clone();
    let mut current_pos: i128 = 0;
    let mut tape = Tape::new(domain.blank.clone());
    loop
        invariant
            tm.wf(),
            moves_known(tm@),
            table == tm@,
            s == domain.setting(),
            steps <= max_steps,
            -(steps as int) <= current_pos <= steps,
            tape.blank() == s.blank,
            config_after(table, s, steps as nat).state == current_state@,
            config_after(table, s, steps as nat).head == current_pos,
            config_after(table, s, steps as nat).written == tape.written(),
            forall|j: nat| j < steps ==> !stopped(table, s, #[trigger] config_after(table, s, j)),
        decreases max_steps - steps,
    {
        if current_state == domain.halting_state {
            proof {
                lemma_ends_where_it_stops(table, s, steps as nat, max_steps);
            }
            return Ending::Halted(steps);
        }
        let symbol = tape.symbol_at(current_pos);
        match tm.lookup(&current_state, &symbol) {
            None => {
                proof {
                    lemma_ends_where_it_stops(table, s, steps as nat, max_steps);
                }
                return Ending::Stalled(steps);
            },
            Some(transition) => {
                if steps == max_steps {
                    proof {
                        lemma_rejected_beyond_ceiling(table, s, 0, max_steps);
                    }
                    return Ending::Exceeded;
                }
                tape.set_symbol_at(current_pos, transition.write.clone());
                let cells = movement_for_direction(transition.movement.clone());
                current_pos = current_pos + cells as i128;
                current_state = transition.next_state.clone();
                steps = steps + 1;
            },
        }
    }
}

/// Tells whether `tm` stops within the window: the number of transitions
/// after which its run halts or stalls, if that is at least `min_steps` and
/// at most `max_steps`; nothing if the run stops too early or is cut off.
pub fn sim(tm: &TM, domain: &Domain, min_steps: usize, max_steps: usize) -> (result: Option<usize>)
    requires
        tm.wf(),
        moves_known(tm@),
    ensures
        result == outcome(tm@, domain.setting(), min_steps, max_steps),
{
    proof {
        lemma_outcome_of_ending(tm@, domain.setting(), min_steps, max_steps);
    }
    match run_bounded(tm, domain, max_steps) {
        Ending::Halted(steps) | Ending::Stalled(steps) => {
            if steps < min_steps {
                None
            } else {
                Some(steps)
            }
        },
        Ending::Exceeded => None,
    }
}

} // verus!
