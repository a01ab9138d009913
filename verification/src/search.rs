//! The search: enumerate, filter, simulate and rank.

use crate::digits::{assignment_count, digit};
use crate::domain::Domain;
use crate::enumerate::{assigned_table, lemma_keys_distinct, machine_at};
use crate::filter::{passes_structural_filter, structurally_valid};
use crate::generate::{generate_all_transitions, key_views, required_keys, transition_views};
use crate::machine::{Key, TransitionView};
use crate::moves::is_direction;
use crate::product::lemma_product_position;
use crate::rank::{rank, stably_sorted, Accepted};
use crate::run::outcome;
use crate::sim::{moves_known, sim};
use vstd::arithmetic::power::lemma0_pow;
use vstd::prelude::*;

verus! {

impl Domain {
    /// What the search finds of machine number `index`: its step count,
    /// where the number names a machine that passes the structural filter
    /// and whose run stops within the window; nothing otherwise.
    pub open spec fn verdict(&self, index: int, min_steps: usize, max_steps: usize) -> Option<
        usize,
    > {
        if 0 <= index < self.machine_count() && structurally_valid(
            self.machine_table(index),
            self.halting_state@,
        ) {
            outcome(self.machine_table(index), self.setting(), min_steps, max_steps)
        } else {
            None
        }
    }
}

/// Whether `found` lists machine number `index`.
pub open spec fn lists(found: Seq<Accepted>, index: int) -> bool {
    exists|p: int| 0 <= p < found.len() && (#[trigger] found[p]).index == index
}

/// Whether `found` is what a search of the machines numbered from `from` up
/// to, not including, `to` has to find: every entry is a machine of the
/// range with the step count that it is accepted with, the entries stand in
/// ascending order of their numbers, and no accepted machine of the range
/// is missing.
pub open spec fn found_in_range(
    domain: Domain,
    from: int,
    to: int,
    min_steps: usize,
    max_steps: usize,
    found: Seq<Accepted>,
) -> bool {
    &&& forall|p: int|
        0 <= p < found.len() ==> {
            &&& from <= (#[trigger] found[p]).index < to
            &&& domain.verdict(found[p].index as int, min_steps, max_steps) == Some(found[p].steps)
        }
    &&& forall|p: int, q: int| 0 <= p < q < found.len() ==> found[p].index < found[q].index
    &&& forall|i: int|
        from <= i < to && domain.verdict(i, min_steps, max_steps) is Some ==> lists(found, i)
}

/// Ranges can be searched apart and joined: what is found in a range
/// followed by what is found in the range that begins where it ends is what
/// is found in the two together.
pub proof fn lemma_ranges_join(
    domain: Domain,
    from: int,
    middle: int,
    to: int,
    min_steps: usize,
    max_steps: usize,
    lower: Seq<Accepted>,
    upper: Seq<Accepted>,
)
    requires
        from <= middle <= to,
        found_in_range(domain, from, middle, min_steps, max_steps, lower),
        found_in_range(domain, middle, to, min_steps, max_steps, upper),
    ensures
        found_in_range(domain, from, to, min_steps, max_steps, lower + upper),
{
    let joined = lower + upper;
    assert forall|i: int|
        from <= i < to && domain.verdict(i, min_steps, max_steps) is Some implies lists(
        joined,
        i,
    ) by {
        if i < middle {
            assert(lists(lower, i));
            let p = choose|p: int| 0 <= p < lower.len() && (#[trigger] lower[p]).index == i;
            assert(joined[p].index == i);
        } else {
            assert(lists(upper, i));
            let p = choose|p: int| 0 <= p < upper.len() && (#[trigger] upper[p]).index == i;
            assert(joined[lower.len() + p].index == i);
        }
    }
    assert forall|p: int, q: int| 0 <= p < q < joined.len() implies joined[p].index
        < joined[q].index by {
        if p < lower.len() && q >= lower.len() {
            assert(joined[p] == lower[p]);
            assert(joined[q] == upper[q - lower.len()]);
        }
    }
}

/// A machine assembled from transitions that all move in known directions
/// moves in known directions.
pub proof fn lemma_assigned_moves_known(
    keys: Seq<Key>,
    transitions: Seq<TransitionView>,
    index: int,
)
    requires
        0 <= index < assignment_count(keys.len(), transitions.len()),
        forall|k: int|
            0 <= k < transitions.len() ==> is_direction((#[trigger] transitions[k]).movement),
    ensures
        moves_known(assigned_table(keys, transitions, index)),
{
    let table = assigned_table(keys, transitions, index);
    assert forall|key: Key| #[trigger] table.contains_key(key) implies is_direction(
        table[key].movement,
    ) by {
        if transitions.len() == 0 {
            lemma0_pow(keys.len());
        }
        let d = digit(index, keys.index_of(key) as nat, transitions.len() as int);
        assert(0 <= d < transitions.len());
    }
}

/// In a well-formed domain every transition moves in a known direction.
pub proof fn lemma_domain_moves_known(domain: Domain)
    requires
        domain.wf(),
    ensures
        forall|k: int|
            0 <= k < domain.transitions().len() ==> is_direction(
                (#[trigger] domain.transitions()[k]).movement,
            ),
{
    let n_states = domain.state_count() as int;
    let n_moves = domain.moves@.len() as int;
    let n_symbols = domain.symbols@.len() as int;
    assert forall|k: int| 0 <= k < domain.transitions().len() implies is_direction(
        (#[trigger] domain.transitions()[k]).movement,
    ) by {
        lemma_product_position(k, n_symbols * n_moves, n_states);
        lemma_product_position(k / n_states, n_symbols, n_moves);
        assert(is_direction(domain.moves@[(k / n_states) % n_moves]@));
    }
}

/// Searches the machines numbered from `from` up to, not including, `to`:
/// each is assembled, put through the structural filter and, if it passes,
/// simulated. The result lists, in ascending order of their numbers, exactly
/// the machines of that range whose run is accepted, each with its step
/// count. Ranges can be searched independently of each other.
pub fn search_range(
    domain: &Domain,
    from: usize,
    to: usize,
    min_steps: usize,
    max_steps: usize,
) -> (found: Vec<Accepted>)
    requires
        domain.wf(),
        domain.within_limits(),
    ensures
        found_in_range(*domain, from as int, to as int, min_steps, max_steps, found@),
{
    if from >= to {
        return Vec::new();
    }
    let all_transitions = generate_all_transitions(domain);
    let keys = required_keys(domain);
    proof {
        lemma_keys_distinct(*domain);
        lemma_domain_moves_known(*domain);
        assert(key_views(keys@) =~= domain.keys());
        assert(transition_views(all_transitions@) =~= domain.transitions());
    }
    let mut found: Vec<Accepted> = Vec::new();
    let mut index: usize = from;
    while index < to
        invariant
            key_views(keys@) == domain.keys(),
            transition_views(all_transitions@) == domain.transitions(),
            domain.keys().no_duplicates(),
            forall|k: int|
                0 <= k < domain.transitions().len() ==> is_direction(
                    (#[trigger] domain.transitions()[k]).movement,
                ),
            from <= index <= to,
            found_in_range(*domain, from as int, index as int, min_steps, max_steps, found@),
        decreases to - index,
    {
        let ghost before = found@;
        match machine_at(&keys, &all_transitions, index) {
            None => {
                return found;
            },
            Some(tm) => {
                proof {
                    lemma_assigned_moves_known(domain.keys(), domain.transitions(), index as int);
                }
                if passes_structural_filter(&tm, domain) {
                    match sim(&tm, domain, min_steps, max_steps) {
                        Some(steps) => {
                            found.push(Accepted { index, steps });
                        },
                        None => {},
                    }
                }
            },
        }
        proof {
            assert forall|i: int|
                from <= i < index + 1 && domain.verdict(i, min_steps, max_steps) is Some
                implies lists(found@, i) by {
                if i < index {
                    assert(lists(before, i));
                    let p = choose|p: int|
                        0 <= p < before.len() && (#[trigger] before[p]).index == i;
                    assert(found@[p].index == i);
                } else {
                    assert(found@[found@.len() - 1].index == i);
                }
            }
        }
        index += 1;
    }
    found
}

/// The whole search over a domain: every machine is assembled, filtered and
/// simulated, and the accepted ones are ranked. The result lists exactly the
/// accepted machines, each once and with its step count, in ascending order
/// of step count; machines with the same step count come in the order of
/// their numbers.
pub fn search(domain: &Domain, min_steps: usize, max_steps: usize) -> (ranked: Vec<Accepted>)
    requires
        domain.wf(),
        domain.within_limits(),
        domain.machine_count() <= usize::MAX,
    ensures
        forall|p: int|
            0 <= p < ranked@.len() ==> domain.verdict(
                (#[trigger] ranked@[p]).index as int,
                min_steps,
                max_steps,
            ) == Some(ranked@[p].steps),
        forall|i: int| domain.verdict(i, min_steps, max_steps) is Some ==> lists(ranked@, i),
        forall|p: int, q: int|
            0 <= p < q < ranked@.len() ==> {
                ||| ranked@[p].steps < ranked@[q].steps
                ||| ranked@[p].steps == ranked@[q].steps && ranked@[p].index < ranked@[q].index
            },
{
    let found = search_range(domain, 0, usize::MAX, min_steps, max_steps);
    let ranked = rank(found);
    proof {
        let origin = choose|origin: Seq<int>| stably_sorted(found@, ranked@, origin);
        assert forall|i: int| domain.verdict(i, min_steps, max_steps) is Some implies lists(
            ranked@,
            i,
        ) by {
            assert(lists(found@, i));
            let p = choose|p: int| 0 <= p < found@.len() && (#[trigger] found@[p]).index == i;
            let entry = found@[p];
            assert(found@.contains(entry));
            vstd::seq_lib::to_multiset_contains(found@, entry);
            vstd::seq_lib::to_multiset_contains(ranked@, entry);
            assert(ranked@.contains(entry));
            let q = choose|q: int| 0 <= q < ranked@.len() && ranked@[q] == entry;
            assert(ranked@[q].index == i);
        }
        assert forall|p: int, q: int| 0 <= p < q < ranked@.len() implies {
            ||| ranked@[p].steps < ranked@[q].steps
            ||| ranked@[p].steps == ranked@[q].steps && ranked@[p].index < ranked@[q].index
        } by {
            assert(ranked@[p] == found@[origin[p]]);
            assert(ranked@[q] == found@[origin[q]]);
        }
    }
    ranked
}

} // verus!
