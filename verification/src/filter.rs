//! The structural filter: what can be told from the shape of a machine's
//! table before it is run.

use crate::domain::Domain;
use crate::machine::{lemma_table_of_rule, selects, Key, Table, TM};
use vstd::prelude::*;

verus! {

/// Whether some transition of `table` enters the state `halting`.
pub open spec fn reaches_halting(table: Table, halting: Seq<char>) -> bool {
    exists|key: Key| #[trigger] table.contains_key(key) && table[key].next_state == halting
}

/// Whether some transition of `table` starts from the state `halting`.
pub open spec fn leaves_halting(table: Table, halting: Seq<char>) -> bool {
    exists|key: Key| #[trigger] table.contains_key(key) && key.0 == halting
}

/// Whether `table` passes the filter: it can enter the halting state and
/// never leaves it.
pub open spec fn structurally_valid(table: Table, halting: Seq<char>) -> bool {
    reaches_halting(table, halting) && !leaves_halting(table, halting)
}

/// Tells whether at least one transition of `tm` enters the halting state.
/// Without one the machine can only stall or run on.
pub fn can_reach_halting(tm: &TM, domain: &Domain) -> (reaches: bool)
    requires
        tm.wf(),
    ensures
        reaches == reaches_halting(tm@, domain.halting_state@),
{
    let ghost halting = domain.halting_state@;
    let mut i: usize = 0;
    while i < tm.rules.len()
        invariant
            tm.wf(),
            halting == domain.halting_state@,
            i <= tm.rules@.len(),
            forall|j: int|
                0 <= j < i ==> (#[trigger] tm.rules@[j]).transition.next_state@ != halting,
        decreases tm.rules@.len() - i,
    {
        if tm.rules[i].transition.next_state == domain.halting_state {
            proof {
                lemma_table_of_rule(tm.rules@, i as int);
            }
            return true;
        }
        i += 1;
    }
    proof {
        assert forall|key: Key| #[trigger] tm@.contains_key(key) implies tm@[key].next_state
            != halting by {
            let j = choose|j: int| selects(tm.rules@, key, j);
            lemma_table_of_rule(tm.rules@, j);
        }
    }
    false
}

/// Tells whether no transition of `tm` starts from the halting state.
pub fn halting_is_terminal(tm: &TM, domain: &Domain) -> (terminal: bool)
    ensures
        terminal == !leaves_halting(tm@, domain.halting_state@),
{
    let ghost halting = domain.halting_state@;
    let mut i: usize = 0;
    while i < tm.rules.len()
        invariant
            halting == domain.halting_state@,
            i <= tm.rules@.len(),
            forall|j: int| 0 <= j < i ==> (#[trigger] tm.rules@[j]).state@ != halting,
        decreases tm.rules@.len() - i,
    {
        if tm.rules[i].state == domain.halting_state {
            proof {
                let key = tm.rules@[i as int].key();
                assert(selects(tm.rules@, key, i as int));
                assert(tm@.contains_key(key) && key.0 == halting);
            }
            return false;
        }
        i += 1;
    }
    proof {
        assert forall|key: Key| #[trigger] tm@.contains_key(key) implies key.0
            != halting by {
            let j = choose|j: int| selects(tm.rules@, key, j);
        }
    }
    true
}

/// The structural filter: a machine goes on to simulation only if it can
/// enter the halting state and has no transition out of it. A machine that
/// fails either test is left out, which is no error.
pub fn passes_structural_filter(tm: &TM, domain: &Domain) -> (passes: bool)
    requires
        tm.wf(),
    ensures
        passes == structurally_valid(tm@, domain.halting_state@),
        !reaches_halting(tm@, domain.halting_state@) ==> !passes,
        leaves_halting(tm@, domain.halting_state@) ==> !passes,
{
    can_reach_halting(tm, domain) && halting_is_terminal(tm, domain)
}

} // verus!
