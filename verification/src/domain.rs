//! The fixed finite sets a search runs over: states, tape symbols and head
//! movements.

use crate::moves::{direction_is_known, is_direction};
use vstd::prelude::*;

verus! {

/// Whether no entry of `names` occurs twice.
pub open spec fn names_distinct(names: Seq<String>) -> bool {
    forall|i: int, j: int| 0 <= i < j < names.len() ==> names[i]@ != names[j]@
}

/// Whether `name` is an entry of `names`.
pub open spec fn names_contain(names: Seq<String>, name: Seq<char>) -> bool {
    exists|i: int| 0 <= i < names.len() && names[i]@ == name
}

/// The configuration of a search. The halting state is kept apart from the
/// active states, which are the ones that need a rule for every symbol.
#[derive(Debug, Clone)]
pub struct Domain {
    pub active_states: Vec<String>,
    pub initial_state: String,
    pub halting_state: String,
    pub symbols: Vec<String>,
    pub blank: String,
    pub moves: Vec<String>,
}

impl Domain {
    /// The number of states, the halting state included.
    pub open spec fn state_count(&self) -> nat {
        self.active_states@.len() + 1
    }

    /// State number `i`: the active states in their order, then the halting
    /// state.
    pub open spec fn state_at(&self, i: int) -> Seq<char> {
        if 0 <= i < self.active_states@.len() {
            self.active_states@[i]@
        } else {
            self.halting_state@
        }
    }

    /// A domain is well formed when the initial state is an active state, the
    /// halting state is none, the blank is a symbol, every move is a
    /// direction, and no set lists a member twice.
    pub open spec fn wf(&self) -> bool {
        &&& names_distinct(self.active_states@)
        &&& names_contain(self.active_states@, self.initial_state@)
        &&& !names_contain(self.active_states@, self.halting_state@)
        &&& names_distinct(self.symbols@)
        &&& names_contain(self.symbols@, self.blank@)
        &&& names_distinct(self.moves@)
        &&& forall|i: int| 0 <= i < self.moves@.len() ==> is_direction(#[trigger] self.moves@[i]@)
    }
}

/// Tells whether no entry of `names` occurs twice.
pub fn all_distinct(names: &Vec<String>) -> (distinct: bool)
    ensures
        distinct == names_distinct(names@),
{
    let mut j: usize = 0;
    while j < names.len()
        invariant
            j <= names@.len(),
            forall|a: int, b: int| 0 <= a < b < j ==> names@[a]@ != names@[b]@,
        decreases names@.len() - j,
    {
        let mut i: usize = 0;
        while i < j
            invariant
                i <= j < names@.len(),
                forall|a: int| 0 <= a < i ==> names@[a]@ != names@[j as int]@,
            decreases j - i,
        {
            if names[i] == names[j] {
                return false;
            }
            i += 1;
        }
        j += 1;
    }
    true
}

/// Tells whether `name` is an entry of `names`.
pub fn contains_name(names: &Vec<String>, name: &String) -> (found: bool)
    ensures
        found == names_contain(names@, name@),
{
    let mut i: usize = 0;
    while i < names.len()
        invariant
            i <= names@.len(),
            forall|a: int| 0 <= a < i ==> names@[a]@ != name@,
        decreases names@.len() - i,
    {
        if names[i] == *name {
            return true;
        }
        i += 1;
    }
    false
}

impl Domain {
    /// Tells whether the domain is well formed.
    pub fn is_valid(&self) -> (valid: bool)
        ensures
            valid == self.wf(),
    {
        let states_valid = all_distinct(&self.active_states)
            && contains_name(&self.active_states, &self.initial_state)
            && !contains_name(&self.active_states, &self.halting_state);
        let symbols_valid = all_distinct(&self.symbols) && contains_name(
            &self.symbols,
            &self.blank,
        );
        if !states_valid || !symbols_valid || !all_distinct(&self.moves) {
            return false;
        }
        let mut i: usize = 0;
        while i < self.moves.len()
            invariant
                i <= self.moves@.len(),
                forall|a: int| 0 <= a < i ==> is_direction(#[trigger] self.moves@[a]@),
            decreases self.moves@.len() - i,
        {
            if !direction_is_known(&self.moves[i]) {
                return false;
            }
            i += 1;
        }
        true
    }
}

} // verus!
