//! The transition generator: every transition that the domain allows, and
//! every key that a machine over the domain needs a transition for.

use crate::domain::{names_distinct, Domain};
use crate::machine::{Key, Transition, TransitionView};
use crate::product::{cartesian_product, lemma_product_position};
use vstd::prelude::*;

verus! {

impl Domain {
    /// The number of transitions over the domain: one for each symbol to
    /// write, each move and each state to enter.
    pub open spec fn transition_count(&self) -> nat {
        self.symbols@.len() * self.moves@.len() * self.state_count()
    }

    /// Transition number `k`. The state to enter changes fastest, then the
    /// move, then the symbol to write.
    pub open spec fn transition_at(&self, k: int) -> TransitionView {
        let per_state = k / (self.state_count() as int);
        TransitionView {
            write: self.symbols@[per_state / (self.moves@.len() as int)]@,
            movement: self.moves@[per_state % (self.moves@.len() as int)]@,
            next_state: self.state_at(k % (self.state_count() as int)),
        }
    }

    /// The number of keys that need a transition: one for each active state
    /// and each symbol.
    pub open spec fn key_count(&self) -> nat {
        self.active_states@.len() * self.symbols@.len()
    }

    /// Key number `j`. The symbol changes fastest.
    pub open spec fn key_at(&self, j: int) -> Key {
        (
            self.active_states@[j / (self.symbols@.len() as int)]@,
            self.symbols@[j % (self.symbols@.len() as int)]@,
        )
    }

    /// Whether the lists of transitions and of keys are short enough to be
    /// held in memory.
    pub open spec fn within_limits(&self) -> bool {
        self.transition_count() <= usize::MAX / 64 && self.key_count() <= usize::MAX / 64
    }

    /// Tells whether the lists of transitions and of keys can be generated.
    pub fn fits(&self) -> (fits: bool)
        ensures
            fits == self.within_limits(),
    {
        let limit = usize::MAX / 64;
        let n_symbols = self.symbols.len();
        let n_moves = self.moves.len();
        let n_active = self.active_states.len();
        let ghost n_states = n_active + 1;
        let keys_fit = match n_active.checked_mul(n_symbols) {
            Some(keys) => keys <= limit,
            None => false,
        };
        if n_symbols == 0 || n_moves == 0 {
            assert(n_symbols * n_moves * n_states == 0) by (nonlinear_arith)
                requires
                    n_symbols == 0 || n_moves == 0,
            ;
            return keys_fit;
        }
        let transitions_fit = match n_symbols.checked_mul(n_moves) {
            Some(pairs) => {
                assert(pairs >= 1) by (nonlinear_arith)
                    requires
                        pairs == n_symbols * n_moves,
                        n_symbols >= 1,
                        n_moves >= 1,
                ;
                if n_active >= limit {
                    assert(pairs * n_states > limit) by (nonlinear_arith)
                        requires
                            pairs >= 1,
                            n_states > limit,
                    ;
                    false
                } else {
                    match pairs.checked_mul(n_active + 1) {
                        Some(triples) => triples <= limit,
                        None => false,
                    }
                }
            },
            None => {
                assert(n_symbols * n_moves * n_states > limit) by (nonlinear_arith)
                    requires
                        n_symbols * n_moves > usize::MAX,
                        n_states >= 1,
                        limit <= usize::MAX,
                ;
                false
            },
        };
        keys_fit && transitions_fit
    }
}

/// The views of a list of transitions.
pub open spec fn transition_views(transitions: Seq<Transition>) -> Seq<TransitionView> {
    Seq::new(transitions.len(), |k: int| transitions[k]@)
}

/// The views of a list of keys.
pub open spec fn key_views(keys: Seq<(String, String)>) -> Seq<Key> {
    Seq::new(keys.len(), |j: int| (keys[j].0@, keys[j].1@))
}

/// The domain's states in one list: the active states, then the halting
/// state.
pub fn all_states(domain: &Domain) -> (states: Vec<String>)
    ensures
        states@.len() == domain.state_count(),
        forall|i: int| 0 <= i < states@.len() ==> (#[trigger] states@[i])@ == domain.state_at(i),
{
    let mut states: Vec<String> = Vec::new();
    let mut i: usize = 0;
    while i < domain.active_states.len()
        invariant
            i <= domain.active_states@.len(),
            states@.len() == i,
            forall|j: int| 0 <= j < i ==> (#[trigger] states@[j])@ == domain.state_at(j),
        decreases domain.active_states@.len() - i,
    {
        states.push(domain.active_states[i].clone());
        i += 1;
    }
    states.push(domain.halting_state.clone());
    states
}

/// Every transition over the domain, in the order of `transition_at`: the
/// product of the symbols, the moves and the states.
pub fn generate_all_transitions(domain: &Domain) -> (all: Vec<Transition>)
    requires
        domain.transition_count() <= usize::MAX / 64,
    ensures
        all@.len() == domain.transition_count(),
        forall|k: int| 0 <= k < all@.len() ==> (#[trigger] all@[k])@ == domain.transition_at(k),
{
    let states = all_states(domain);
    let ghost n_symbols = domain.symbols@.len() as int;
    let ghost n_moves = domain.moves@.len() as int;
    let ghost n_states = states@.len() as int;
    assert(n_symbols * n_moves <= n_symbols * n_moves * n_states) by (nonlinear_arith)
        requires
            0 <= n_symbols,
            0 <= n_moves,
            1 <= n_states,
    ;
    let written_moved = cartesian_product(&domain.symbols, &domain.moves);
    let triples = cartesian_product(&written_moved, &states);
    let mut all: Vec<Transition> = Vec::new();
    let mut k: usize = 0;
    while k < triples.len()
        invariant
            k <= triples@.len(),
            all@.len() == k,
            n_symbols == domain.symbols@.len(),
            n_moves == domain.moves@.len(),
            n_states == states@.len(),
            n_states == domain.state_count(),
            written_moved@.len() == n_symbols * n_moves,
            triples@.len() == written_moved@.len() * n_states,
            forall|i: int|
                0 <= i < states@.len() ==> (#[trigger] states@[i])@ == domain.state_at(i),
            forall|p: int|
                0 <= p < written_moved@.len() ==> (#[trigger] written_moved@[p]) == (
                    &domain.symbols@[p / n_moves],
                    &domain.moves@[p % n_moves],
                ),
            forall|t: int|
                0 <= t < triples@.len() ==> (#[trigger] triples@[t]) == (
                    &written_moved@[t / n_states],
                    &states@[t % n_states],
                ),
            forall|t: int| 0 <= t < k ==> (#[trigger] all@[t])@ == domain.transition_at(t),
        decreases triples@.len() - k,
    {
        proof {
            lemma_product_position(k as int, written_moved@.len() as int, n_states);
            lemma_product_position((k as int) / n_states, n_symbols, n_moves);
        }
        let triple = &triples[k];
        let transition = Transition {
            write: ((triple.0).0).clone(),
            movement: ((triple.0).1).clone(),
            next_state: (triple.1).clone(),
        };
        all.push(transition);
        k += 1;
    }
    all
}

/// Every key that a machine over the domain needs a transition for, in the
/// order of `key_at`: the product of the active states and the symbols.
pub fn required_keys(domain: &Domain) -> (keys: Vec<(String, String)>)
    requires
        domain.key_count() <= usize::MAX / 64,
    ensures
        keys@.len() == domain.key_count(),
        forall|j: int|
            0 <= j < keys@.len() ==> (#[trigger] key_views(keys@)[j]) == domain.key_at(j),
{
    let pairs = cartesian_product(&domain.active_states, &domain.symbols);
    let ghost n_symbols = domain.symbols@.len() as int;
    let mut keys: Vec<(String, String)> = Vec::new();
    let mut j: usize = 0;
    while j < pairs.len()
        invariant
            j <= pairs@.len(),
            keys@.len() == j,
            n_symbols == domain.symbols@.len(),
            pairs@.len() == domain.active_states@.len() * n_symbols,
            forall|p: int|
                0 <= p < pairs@.len() ==> (#[trigger] pairs@[p]) == (
                    &domain.active_states@[p / n_symbols],
                    &domain.symbols@[p % n_symbols],
                ),
            forall|i: int| 0 <= i < j ==> (#[trigger] key_views(keys@)[i]) == domain.key_at(i),
        decreases pairs@.len() - j,
    {
        let pair = &pairs[j];
        let ghost before = keys@;
        keys.push(((pair.0).clone(), (pair.1).clone()));
        proof {
            assert forall|i: int| 0 <= i < j + 1 implies (#[trigger] key_views(keys@)[i])
                == domain.key_at(i) by {
                if i < j {
                    assert(key_views(before)[i] == domain.key_at(i));
                    assert(keys@[i] == before[i]);
                }
            }
        }
        j += 1;
    }
    keys
}

/// In a well-formed domain no transition is generated twice: two numbers
/// below the count name different transitions.
pub proof fn lemma_transitions_distinct(domain: Domain, k1: int, k2: int)
    requires
        domain.wf(),
        0 <= k1 < domain.transition_count(),
        0 <= k2 < domain.transition_count(),
        k1 != k2,
    ensures
        domain.transition_at(k1) != domain.transition_at(k2),
{
    let n_states = domain.state_count() as int;
    let n_moves = domain.moves@.len() as int;
    let n_symbols = domain.symbols@.len() as int;
    lemma_product_position(k1, n_symbols * n_moves, n_states);
    lemma_product_position(k2, n_symbols * n_moves, n_states);
    let (a1, a2) = (k1 / n_states, k2 / n_states);
    let (c1, c2) = (k1 % n_states, k2 % n_states);
    lemma_product_position(a1, n_symbols, n_moves);
    lemma_product_position(a2, n_symbols, n_moves);
    let (w1, w2) = (a1 / n_moves, a2 / n_moves);
    let (m1, m2) = (a1 % n_moves, a2 % n_moves);
    if domain.transition_at(k1) == domain.transition_at(k2) {
        lemma_same_name_same_place(domain.symbols@, w1, w2);
        lemma_same_name_same_place(domain.moves@, m1, m2);
        assert(c1 == c2) by {
            let n_active = domain.active_states@.len() as int;
            if c1 < n_active && c2 < n_active {
                lemma_same_name_same_place(domain.active_states@, c1, c2);
            }
        }
        assert(a1 == a2);
        assert(false);
    }
}

/// In a list without repetitions, equal names stand at the same place.
pub proof fn lemma_same_name_same_place(names: Seq<String>, i: int, j: int)
    requires
        names_distinct(names),
        0 <= i < names.len(),
        0 <= j < names.len(),
        names[i]@ == names[j]@,
    ensures
        i == j,
{
    if i < j {
        assert(names[i]@ != names[j]@);
    } else if j < i {
        assert(names[j]@ != names[i]@);
    }
}

} // verus!
