//! The machine enumerator: every way of assigning one transition to each
//! key, numbered so that machines can be produced one at a time.
//!
//! A machine's number, written in the base of the number of transitions, has
//! one digit for each key: the digit is the number of the key's transition.

use crate::digits::{
    assignment_count, digit, lemma_every_choice_has_a_number, lemma_in_range_iff_used_up,
    lemma_same_digits_same_number, number_of, shifted,
};
use crate::domain::{names_contain, Domain};
use crate::generate::{
    generate_all_transitions, key_views, lemma_transitions_distinct, required_keys,
    transition_views,
};
use crate::machine::{
    keys_distinct, lemma_table_of_rule, selects, table_of, Key, Rule, Table, Transition,
    TransitionView, TM,
};
use crate::product::{lemma_product_index, lemma_product_position};
use vstd::arithmetic::power::{
    lemma0_pow, lemma1_pow, lemma_pow_increases, lemma_pow_positive, pow,
};
use vstd::prelude::*;

verus! {

/// Machine number `index`: the table that gives key number `j` the
/// transition whose number is digit `j` of `index`.
pub open spec fn assigned_table(
    keys: Seq<Key>,
    transitions: Seq<TransitionView>,
    index: int,
) -> Table {
    Map::new(
        |key: Key| keys.contains(key),
        |key: Key|
            transitions[digit(index, keys.index_of(key) as nat, transitions.len() as int)],
    )
}

/// The number of machines over `keys` keys and `transitions` transitions, or
/// nothing where that number is beyond `usize`.
pub fn machine_count(keys: usize, transitions: usize) -> (count: Option<usize>)
    ensures
        match count {
            Some(c) => c == assignment_count(keys as nat, transitions as nat),
            None => assignment_count(keys as nat, transitions as nat) > usize::MAX,
        },
{
    proof {
        reveal(pow);
    }
    if keys == 0 {
        return Some(1);
    }
    if transitions == 0 {
        proof {
            lemma0_pow(keys as nat);
        }
        return Some(0);
    }
    if transitions == 1 {
        proof {
            lemma1_pow(keys as nat);
        }
        return Some(1);
    }
    let mut count: usize = 1;
    let mut j: usize = 0;
    while j < keys
        invariant
            j <= keys,
            1 < transitions,
            count == pow(transitions as int, j as nat),
        decreases keys - j,
    {
        proof {
            reveal(pow);
            lemma_pow_positive(transitions as int, j as nat);
            assert(pow(transitions as int, (j + 1) as nat) == transitions * pow(
                transitions as int,
                j as nat,
            ));
            assert(transitions * count == count * transitions) by (nonlinear_arith);
        }
        match count.checked_mul(transitions) {
            Some(next) => {
                count = next;
            },
            None => {
                proof {
                    lemma_pow_increases(transitions as nat, (j + 1) as nat, keys as nat);
                }
                return None;
            },
        }
        j += 1;
    }
    Some(count)
}

/// Machine number `index` over the given keys and transitions, or nothing
/// where `index` is not below the number of machines. Each key is given the
/// transition that its digit of `index` names, so the machine has exactly
/// one transition for every key. The rules stand in the order of the keys.
pub fn machine_at(
    keys: &Vec<(String, String)>,
    transitions: &Vec<Transition>,
    index: usize,
) -> (machine: Option<TM>)
    requires
        key_views(keys@).no_duplicates(),
    ensures
        machine is Some <==> index < assignment_count(keys@.len(), transitions@.len()),
        machine matches Some(tm) ==> {
            &&& tm.wf()
            &&& tm@ == assigned_table(
                key_views(keys@),
                transition_views(transitions@),
                index as int,
            )
            &&& tm.rules@.len() == keys@.len()
            &&& forall|j: int|
                0 <= j < keys@.len() ==> (#[trigger] tm.rules@[j]).key() == key_views(keys@)[j]
        },
{
    let base = transitions.len();
    let ghost kv = key_views(keys@);
    let ghost tv = transition_views(transitions@);
    let mut rules: Vec<Rule> = Vec::new();
    let mut rest: usize = index;
    let mut j: usize = 0;
    while j < keys.len()
        invariant
            j <= keys@.len(),
            base == transitions@.len(),
            kv == key_views(keys@),
            tv == transition_views(transitions@),
            rules@.len() == j,
            rest == shifted(index as int, j as nat, base as int),
            0 < base || j == 0,
            forall|i: int|
                0 <= i < j ==> {
                    &&& (#[trigger] rules@[i]).key() == kv[i]
                    &&& 0 <= digit(index as int, i as nat, base as int) < base
                    &&& rules@[i].transition@ == tv[digit(index as int, i as nat, base as int)]
                },
        decreases keys@.len() - j,
    {
        if base == 0 {
            proof {
                lemma0_pow(keys@.len());
            }
            return None;
        }
        let d = rest % base;
        let key = &keys[j];
        rules.push(
            Rule {
                state: key.0.clone(),
                read: key.1.clone(),
                transition: transitions[d].duplicate(),
            },
        );
        rest = rest / base;
        j += 1;
    }
    proof {
        lemma_in_range_iff_used_up(index as int, keys@.len(), base as nat);
    }
    if rest != 0 {
        return None;
    }
    let tm = TM { rules };
    proof {
        lemma_rules_spell_assignment(tm.rules@, kv, tv, index as int);
    }
    Some(tm)
}

/// Rules that follow the keys one by one, each with the transition that its
/// digit names, have distinct keys and spell out the assigned table.
pub proof fn lemma_rules_spell_assignment(
    rules: Seq<Rule>,
    keys: Seq<Key>,
    transitions: Seq<TransitionView>,
    index: int,
)
    requires
        keys.no_duplicates(),
        rules.len() == keys.len(),
        forall|i: int|
            0 <= i < rules.len() ==> {
                &&& (#[trigger] rules[i]).key() == keys[i]
                &&& rules[i].transition@ == transitions[digit(
                    index,
                    i as nat,
                    transitions.len() as int,
                )]
            },
    ensures
        keys_distinct(rules),
        table_of(rules) == assigned_table(keys, transitions, index),
{
    let spelled = table_of(rules);
    let expected = assigned_table(keys, transitions, index);
    assert(keys_distinct(rules));
    assert forall|key: Key| spelled.contains_key(key) implies expected.contains_key(key) by {
        let i = choose|i: int| selects(rules, key, i);
        assert(keys[i] == key);
    }
    assert forall|key: Key| expected.contains_key(key) implies spelled.contains_key(key) by {
        let i = keys.index_of(key);
        assert(selects(rules, key, i));
    }
    assert forall|key: Key| spelled.contains_key(key) implies spelled[key] == expected[key] by {
        let i = choose|i: int| selects(rules, key, i);
        lemma_table_of_rule(rules, i);
        assert(keys[i] == key);
        assert(keys.index_of(key) == i);
    }
    assert(spelled =~= expected);
}

/// Whether machine number `index` gives key number `j` the transition that
/// digit `j` of `index` names.
pub open spec fn assigns(
    keys: Seq<Key>,
    transitions: Seq<TransitionView>,
    index: int,
    j: int,
) -> bool {
    let d = digit(index, j as nat, transitions.len() as int);
    &&& 0 <= d < transitions.len()
    &&& assigned_table(keys, transitions, index).contains_key(keys[j])
    &&& assigned_table(keys, transitions, index)[keys[j]] == transitions[d]
}

/// Each enumerated machine is complete: its table has exactly the given
/// keys, and gives each key one of the given transitions, the one that the
/// key's digit names.
pub proof fn lemma_machine_is_complete(keys: Seq<Key>, transitions: Seq<TransitionView>, index: int)
    requires
        keys.no_duplicates(),
        0 <= index < assignment_count(keys.len(), transitions.len()),
    ensures
        forall|key: Key| #[trigger]
            assigned_table(keys, transitions, index).contains_key(key) <==> keys.contains(key),
        forall|j: int| 0 <= j < keys.len() ==> #[trigger] assigns(keys, transitions, index, j),
{
    assert forall|j: int| 0 <= j < keys.len() implies #[trigger] assigns(
        keys,
        transitions,
        index,
        j,
    ) by {
        if transitions.len() == 0 {
            lemma0_pow(keys.len());
        }
        assert(keys.contains(keys[j]));
        assert(keys.index_of(keys[j]) == j);
    }
}

/// Every assignment is enumerated: a table that has exactly the given keys
/// and takes its transitions from the given ones is the table of some
/// machine number.
pub proof fn lemma_every_assignment_enumerated(
    keys: Seq<Key>,
    transitions: Seq<TransitionView>,
    table: Table,
) -> (index: int)
    requires
        keys.no_duplicates(),
        forall|key: Key| #[trigger] table.contains_key(key) <==> keys.contains(key),
        forall|key: Key| #[trigger]
            table.contains_key(key) ==> transitions.contains(table[key]),
    ensures
        0 <= index < assignment_count(keys.len(), transitions.len()),
        assigned_table(keys, transitions, index) == table,
{
    let base = transitions.len();
    let choice = Seq::new(keys.len(), |j: int| transitions.index_of(table[keys[j]]));
    assert forall|j: int| 0 <= j < choice.len() implies 0 <= #[trigger] choice[j] < base
        && transitions[choice[j]] == table[keys[j]] by {
        assert(keys.contains(keys[j]));
        assert(table.contains_key(keys[j]));
        assert(transitions.contains(table[keys[j]]));
    }
    lemma_every_choice_has_a_number(choice, base);
    let index = number_of(choice, base as int);
    let assigned = assigned_table(keys, transitions, index);
    assert forall|key: Key| assigned.contains_key(key) implies assigned[key]
        == table[key] by {
        let j = keys.index_of(key);
        assert(digit(index, j as nat, base as int) == choice[j]);
    }
    assert(assigned =~= table);
    index
}

/// No machine is enumerated twice: where the transitions are distinct,
/// different machine numbers give different tables.
pub proof fn lemma_machines_differ(
    keys: Seq<Key>,
    transitions: Seq<TransitionView>,
    i1: int,
    i2: int,
)
    requires
        keys.no_duplicates(),
        transitions.no_duplicates(),
        0 <= i1 < assignment_count(keys.len(), transitions.len()),
        0 <= i2 < assignment_count(keys.len(), transitions.len()),
        i1 != i2,
    ensures
        assigned_table(keys, transitions, i1) != assigned_table(keys, transitions, i2),
{
    let base = transitions.len();
    let b = base as int;
    if forall|j: nat| j < keys.len() ==> #[trigger] digit(i1, j, b) == digit(i2, j, b) {
        lemma_same_digits_same_number(i1, i2, keys.len(), base);
    } else {
        let j = choose|j: nat| j < keys.len() && #[trigger] digit(i1, j, b) != digit(i2, j, b);
        lemma_machine_is_complete(keys, transitions, i1);
        lemma_machine_is_complete(keys, transitions, i2);
        let key = keys[j as int];
        assert(assigns(keys, transitions, i1, j as int));
        assert(assigns(keys, transitions, i2, j as int));
        assert(assigned_table(keys, transitions, i1)[key] != assigned_table(
            keys,
            transitions,
            i2,
        )[key]);
    }
}

impl Domain {
    /// The keys that need a transition, in order.
    pub open spec fn keys(&self) -> Seq<Key> {
        Seq::new(self.key_count(), |j: int| self.key_at(j))
    }

    /// The transitions over the domain, in order.
    pub open spec fn transitions(&self) -> Seq<TransitionView> {
        Seq::new(self.transition_count(), |k: int| self.transition_at(k))
    }

    /// The number of machines over the domain.
    pub open spec fn machine_count(&self) -> nat {
        assignment_count(self.key_count(), self.transition_count())
    }

    /// The table of machine number `index` over the domain.
    pub open spec fn machine_table(&self, index: int) -> Table {
        assigned_table(self.keys(), self.transitions(), index)
    }
}

/// In a well-formed domain no key is listed twice.
pub proof fn lemma_keys_distinct(domain: Domain)
    requires
        domain.wf(),
    ensures
        domain.keys().no_duplicates(),
{
    let keys = domain.keys();
    let rows = domain.active_states@.len() as int;
    let cols = domain.symbols@.len() as int;
    assert forall|i: int, j: int|
        0 <= i < keys.len() && 0 <= j < keys.len() && i != j implies keys[i] != keys[j] by {
        lemma_product_position(i, rows, cols);
        lemma_product_position(j, rows, cols);
        if i / cols == j / cols {
            assert(i % cols != j % cols);
            if i % cols < j % cols {
                assert(domain.symbols@[i % cols]@ != domain.symbols@[j % cols]@);
            } else {
                assert(domain.symbols@[j % cols]@ != domain.symbols@[i % cols]@);
            }
        } else if i / cols < j / cols {
            assert(domain.active_states@[i / cols]@ != domain.active_states@[j / cols]@);
        } else {
            assert(domain.active_states@[j / cols]@ != domain.active_states@[i / cols]@);
        }
    }
}

/// The keys of a well-formed domain are the pairs of an active state and a
/// symbol, and no others.
pub proof fn lemma_keys_are_active_with_symbol(domain: Domain, state: Seq<char>, symbol: Seq<char>)
    ensures
        domain.keys().contains((state, symbol)) <==> names_contain(domain.active_states@, state)
            && names_contain(domain.symbols@, symbol),
{
    let keys = domain.keys();
    let rows = domain.active_states@.len() as int;
    let cols = domain.symbols@.len() as int;
    if keys.contains((state, symbol)) {
        let j = choose|j: int| 0 <= j < keys.len() && keys[j] == (state, symbol);
        lemma_product_position(j, rows, cols);
        assert(domain.active_states@[j / cols]@ == state);
        assert(domain.symbols@[j % cols]@ == symbol);
    }
    if names_contain(domain.active_states@, state) && names_contain(domain.symbols@, symbol) {
        let row = choose|i: int| 0 <= i < rows && domain.active_states@[i]@ == state;
        let col = choose|i: int| 0 <= i < cols && domain.symbols@[i]@ == symbol;
        lemma_product_index(row, col, rows, cols);
        assert(keys[row * cols + col] == (state, symbol));
    }
}

/// Every enumerated machine is complete: over a well-formed domain, each
/// machine has a transition for a state and a symbol exactly when the state
/// is active and the symbol is one of the domain's, and that transition is
/// one of the domain's.
pub proof fn lemma_enumerated_machine_is_complete(
    domain: Domain,
    index: int,
    state: Seq<char>,
    symbol: Seq<char>,
)
    requires
        domain.wf(),
        0 <= index < domain.machine_count(),
    ensures
        domain.machine_table(index).contains_key((state, symbol)) <==> names_contain(
            domain.active_states@,
            state,
        ) && names_contain(domain.symbols@, symbol),
        domain.machine_table(index).contains_key((state, symbol))
            ==> domain.transitions().contains(domain.machine_table(index)[(state, symbol)]),
{
    let keys = domain.keys();
    lemma_keys_distinct(domain);
    lemma_keys_are_active_with_symbol(domain, state, symbol);
    lemma_machine_is_complete(keys, domain.transitions(), index);
    if keys.contains((state, symbol)) {
        let j = keys.index_of((state, symbol));
        assert(assigns(keys, domain.transitions(), index, j));
    }
}

/// In a well-formed domain no transition is listed twice.
pub proof fn lemma_domain_transitions_distinct(domain: Domain)
    requires
        domain.wf(),
    ensures
        domain.transitions().no_duplicates(),
{
    let transitions = domain.transitions();
    assert forall|i: int, j: int|
        0 <= i < transitions.len() && 0 <= j < transitions.len() && i != j implies transitions[i]
        != transitions[j] by {
        lemma_transitions_distinct(domain, i, j);
    }
}

/// The enumeration over a well-formed domain is one to one: different
/// machine numbers give different tables.
pub proof fn lemma_enumeration_is_one_to_one(domain: Domain, i1: int, i2: int)
    requires
        domain.wf(),
        0 <= i1 < domain.machine_count(),
        0 <= i2 < domain.machine_count(),
        i1 != i2,
    ensures
        domain.machine_table(i1) != domain.machine_table(i2),
{
    lemma_keys_distinct(domain);
    lemma_domain_transitions_distinct(domain);
    lemma_machines_differ(domain.keys(), domain.transitions(), i1, i2);
}

/// The enumeration over a well-formed domain is full: every table that
/// gives each of the domain's keys, and nothing else, one of the domain's
/// transitions is the table of a machine number.
pub proof fn lemma_enumeration_is_full(domain: Domain, table: Table) -> (index: int)
    requires
        domain.wf(),
        forall|key: Key| #[trigger] table.contains_key(key) <==> domain.keys().contains(key),
        forall|key: Key| #[trigger]
            table.contains_key(key) ==> domain.transitions().contains(table[key]),
    ensures
        0 <= index < domain.machine_count(),
        domain.machine_table(index) == table,
{
    lemma_keys_distinct(domain);
    lemma_every_assignment_enumerated(domain.keys(), domain.transitions(), table)
}

/// Every machine over the domain, in the order of their numbers. This holds
/// all of them at once: the number of machines grows as a power of the
/// number of keys, so for any but the smallest domains produce them one by
/// one with `machine_at`.
pub fn generate_all_turing_machines(domain: &Domain) -> (all: Vec<TM>)
    requires
        domain.wf(),
        domain.within_limits(),
        domain.machine_count() <= usize::MAX,
    ensures
        all@.len() == domain.machine_count(),
        forall|i: int|
            0 <= i < all@.len() ==> {
                &&& (#[trigger] all@[i]).wf()
                &&& all@[i]@ == domain.machine_table(i)
            },
{
    let all_transitions = generate_all_transitions(domain);
    let keys = required_keys(domain);
    proof {
        lemma_keys_distinct(*domain);
        assert(key_views(keys@) =~= domain.keys());
        assert(transition_views(all_transitions@) =~= domain.transitions());
    }
    let mut all: Vec<TM> = Vec::new();
    let mut index: usize = 0;
    loop
        invariant
            key_views(keys@) == domain.keys(),
            transition_views(all_transitions@) == domain.transitions(),
            domain.keys().no_duplicates(),
            keys@.len() == domain.key_count(),
            all_transitions@.len() == domain.transition_count(),
            domain.machine_count() <= usize::MAX,
            index <= domain.machine_count(),
            all@.len() == index,
            forall|i: int|
                0 <= i < all@.len() ==> {
                    &&& (#[trigger] all@[i]).wf()
                    &&& all@[i]@ == domain.machine_table(i)
                },
        decreases domain.machine_count() - index,
    {
        match machine_at(&keys, &all_transitions, index) {
            Some(tm) => {
                all.push(tm);
                index += 1;
            },
            None => {
                return all;
            },
        }
    }
}

} // verus!
