//! What it means to run a machine: configurations, single steps, and the
//! number of steps after which a run stops.

use crate::domain::Domain;
use crate::machine::{Key, Table};
use crate::moves::displacement;
use crate::tape::cell;
use vstd::prelude::*;

verus! {

/// A snapshot of a run: the current state, the head's position and the cells
/// written so far.
pub struct Configuration {
    pub state: Seq<char>,
    pub head: int,
    pub written: Map<int, Seq<char>>,
}

/// What a run needs to know besides the table: where it starts, where it
/// halts, and what an unwritten cell holds.
pub struct Setting {
    pub initial: Seq<char>,
    pub halting: Seq<char>,
    pub blank: Seq<char>,
}

impl Domain {
    /// The part of the domain that a run depends on.
    pub open spec fn setting(&self) -> Setting {
        Setting { initial: self.initial_state@, halting: self.halting_state@, blank: self.blank@ }
    }
}

/// The configuration every run starts in: the initial state, the head at
/// cell 0, nothing written.
pub open spec fn start(s: Setting) -> Configuration {
    Configuration { state: s.initial, head: 0, written: Map::empty() }
}

/// The key under which `c` looks for its next transition.
pub open spec fn lookup_key(s: Setting, c: Configuration) -> Key {
    (c.state, cell(c.written, s.blank, c.head))
}

/// Whether a run stops in `c`: it has halted, or it has stalled for want of a
/// rule.
pub open spec fn stopped(table: Table, s: Setting, c: Configuration) -> bool {
    c.state == s.halting || !table.contains_key(lookup_key(s, c))
}

/// The configuration that follows `c`: the transition's symbol is written
/// under the head, the head moves, and the state changes.
pub open spec fn step(table: Table, s: Setting, c: Configuration) -> Configuration {
    let t = table[lookup_key(s, c)];
    Configuration {
        state: t.next_state,
        head: c.head + displacement(t.movement),
        written: c.written.insert(c.head, t.write),
    }
}

/// The configuration after `n` transitions were applied.
pub open spec fn config_after(table: Table, s: Setting, n: nat) -> Configuration
    decreases n,
{
    if n == 0 {
        start(s)
    } else {
        step(table, s, config_after(table, s, (n - 1) as nat))
    }
}

/// Whether the run stops after exactly `k` transitions: it is stopped then,
/// and was not before.
pub open spec fn stops_after(table: Table, s: Setting, k: nat) -> bool {
    &&& stopped(table, s, config_after(table, s, k))
    &&& forall|j: nat| j < k ==> !stopped(table, s, #[trigger] config_after(table, s, j))
}

/// The number of transitions after which the run stops, if it ever does.
pub open spec fn stopping_time(table: Table, s: Setting) -> Option<nat> {
    if exists|k: nat| stops_after(table, s, k) {
        Some(choose|k: nat| stops_after(table, s, k))
    } else {
        None
    }
}

/// How a bounded run ends: in the halting state, for want of a transition,
/// or cut off at the ceiling. The first two carry the number of transitions
/// applied.
#[derive(Debug, Clone, Copy, PartialEq, Eq, Structural)]
pub enum Ending {
    Halted(usize),
    Stalled(usize),
    Exceeded,
}

/// How the run ends under a ceiling of `max_steps` transitions: halted or
/// stalled after the number of transitions at which it stops, if that is
/// within the ceiling; cut off otherwise.
pub open spec fn ending(table: Table, s: Setting, max_steps: usize) -> Ending {
    match stopping_time(table, s) {
        Some(k) => if k <= max_steps {
            if config_after(table, s, k).state == s.halting {
                Ending::Halted(k as usize)
            } else {
                Ending::Stalled(k as usize)
            }
        } else {
            Ending::Exceeded
        },
        None => Ending::Exceeded,
    }
}

/// The outcome of a bounded run: the step count, where the run stops within
/// `max_steps` transitions and not before `min_steps`; nothing otherwise.
pub open spec fn outcome(
    table: Table,
    s: Setting,
    min_steps: usize,
    max_steps: usize,
) -> Option<usize> {
    match stopping_time(table, s) {
        Some(k) => if min_steps <= k <= max_steps {
            Some(k as usize)
        } else {
            None
        },
        None => None,
    }
}

/// The outcome depends on nothing but the table, the setting and the two
/// bounds: runs that agree in these agree in their outcome, however the
/// tables were built.
pub proof fn lemma_same_run_same_outcome(
    first: Table,
    second: Table,
    s: Setting,
    min_steps: usize,
    max_steps: usize,
)
    requires
        first =~= second,
    ensures
        outcome(first, s, min_steps, max_steps) == outcome(second, s, min_steps, max_steps),
{
}

/// A run stops at most once: two stopping times are the same.
pub proof fn lemma_stops_once(table: Table, s: Setting, k1: nat, k2: nat)
    requires
        stops_after(table, s, k1),
        stops_after(table, s, k2),
    ensures
        k1 == k2,
{
    if k1 < k2 {
        assert(!stopped(table, s, config_after(table, s, k1)));
    } else if k2 < k1 {
        assert(!stopped(table, s, config_after(table, s, k2)));
    }
}

/// A machine that stops after exactly `k` steps is accepted with `k` if and
/// only if `k` lies within the window; otherwise it is rejected.
pub proof fn lemma_accepted_iff_in_window(
    table: Table,
    s: Setting,
    k: nat,
    min_steps: usize,
    max_steps: usize,
)
    requires
        stops_after(table, s, k),
    ensures
        min_steps <= k <= max_steps ==> outcome(table, s, min_steps, max_steps) == Some(
            k as usize,
        ),
        !(min_steps <= k <= max_steps) ==> outcome(table, s, min_steps, max_steps) is None,
{
    let chosen = choose|c: nat| stops_after(table, s, c);
    lemma_stops_once(table, s, k, chosen);
}

/// A run that stops after `k` transitions, within the ceiling, ends halted
/// or stalled after `k`, according to the state it stops in.
pub proof fn lemma_ends_where_it_stops(table: Table, s: Setting, k: nat, max_steps: usize)
    requires
        stops_after(table, s, k),
        k <= max_steps,
    ensures
        ending(table, s, max_steps) == if config_after(table, s, k).state == s.halting {
            Ending::Halted(k as usize)
        } else {
            Ending::Stalled(k as usize)
        },
{
    let chosen = choose|c: nat| stops_after(table, s, c);
    lemma_stops_once(table, s, k, chosen);
}

/// The outcome is the step count of a run that ends halted or stalled, if
/// that is not below the minimum; a run that is cut off has none.
pub proof fn lemma_outcome_of_ending(table: Table, s: Setting, min_steps: usize, max_steps: usize)
    ensures
        outcome(table, s, min_steps, max_steps) == match ending(table, s, max_steps) {
            Ending::Halted(k) => if min_steps <= k {
                Some(k)
            } else {
                None
            },
            Ending::Stalled(k) => if min_steps <= k {
                Some(k)
            } else {
                None
            },
            Ending::Exceeded => None,
        },
{
}

/// A run that has not stopped within `max_steps` transitions is cut off and
/// has no outcome, whatever it does later.
pub proof fn lemma_rejected_beyond_ceiling(
    table: Table,
    s: Setting,
    min_steps: usize,
    max_steps: usize,
)
    requires
        forall|j: nat| j <= max_steps ==> !stopped(table, s, #[trigger] config_after(table, s, j)),
    ensures
        ending(table, s, max_steps) == Ending::Exceeded,
        outcome(table, s, min_steps, max_steps) is None,
{
    if exists|k: nat| stops_after(table, s, k) {
        let k = choose|k: nat| stops_after(table, s, k);
        if k <= max_steps {
            assert(!stopped(table, s, config_after(table, s, k)));
        }
    }
}

} // verus!
