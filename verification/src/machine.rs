//! Transitions and machines: a machine is a table from (state, symbol read)
//! to the transition to take.

use vstd::prelude::*;

verus! {

/// What a machine does in one step: the symbol to write, the direction to
/// move the head in, and the state to enter.
#[derive(Debug, Clone)]
pub struct Transition {
    pub write: String,
    pub movement: String,
    pub next_state: String,
}

/// What selects a transition: the current state and the symbol under the
/// head.
pub type Key = (Seq<char>, Seq<char>);

/// A machine as a mathematical value: at most one transition for each key.
pub type Table = Map<Key, TransitionView>;

/// A transition as a mathematical value.
pub struct TransitionView {
    pub write: Seq<char>,
    pub movement: Seq<char>,
    pub next_state: Seq<char>,
}

impl View for Transition {
    type V = TransitionView;

    open spec fn view(&self) -> TransitionView {
        TransitionView {
            write: self.write@,
            movement: self.movement@,
            next_state: self.next_state@,
        }
    }
}

impl Transition {
    /// A copy of this transition.
    pub fn duplicate(&self) -> (copy: Transition)
        ensures
            copy@ == self@,
    {
        Transition {
            write: self.write.clone(),
            movement: self.movement.clone(),
            next_state: self.next_state.clone(),
        }
    }
}

/// One line of a machine's table: in `state`, on reading `read`, take
/// `transition`.
#[derive(Debug, Clone)]
pub struct Rule {
    pub state: String,
    pub read: String,
    pub transition: Transition,
}

impl Rule {
    /// The (state, symbol read) pair that selects this rule.
    pub open spec fn key(&self) -> Key {
        (self.state@, self.read@)
    }
}

/// Whether no two of `rules` are selected by the same key.
pub open spec fn keys_distinct(rules: Seq<Rule>) -> bool {
    forall|i: int, j: int| 0 <= i < j < rules.len() ==> rules[i].key() != rules[j].key()
}

/// Whether `rules[i]` exists and is selected by `key`.
pub open spec fn selects(rules: Seq<Rule>, key: Key, i: int) -> bool {
    0 <= i < rules.len() && rules[i].key() == key
}

/// The table that `rules` spell out.
pub open spec fn table_of(rules: Seq<Rule>) -> Table {
    Map::new(
        |key: Key| exists|i: int| selects(rules, key, i),
        |key: Key| rules[choose|i: int| selects(rules, key, i)].transition@,
    )
}

/// With distinct keys, the table maps each rule's key to that rule's
/// transition.
pub proof fn lemma_table_of_rule(rules: Seq<Rule>, i: int)
    requires
        keys_distinct(rules),
        0 <= i < rules.len(),
    ensures
        table_of(rules).contains_key(rules[i].key()),
        table_of(rules)[rules[i].key()] == rules[i].transition@,
{
    let key = rules[i].key();
    assert(selects(rules, key, i));
    let c = choose|c: int| selects(rules, key, c);
    assert(c == i) by {
        if c < i {
            assert(rules[c].key() != rules[i].key());
        } else if i < c {
            assert(rules[i].key() != rules[c].key());
        }
    }
}

/// A Turing machine's transition table, held as a list of rules; `wf` says
/// that no key occurs twice in it.
#[derive(Debug, Clone)]
pub struct TM {
    pub rules: Vec<Rule>,
}

impl View for TM {
    type V = Table;

    open spec fn view(&self) -> Table {
        table_of(self.rules@)
    }
}

impl TM {
    /// The table's invariant: each key selects at most one rule.
    pub open spec fn wf(&self) -> bool {
        keys_distinct(self.rules@)
    }

    /// A machine without rules.
    pub fn new() -> (tm: TM)
        ensures
            tm.wf(),
            tm@ == Map::<Key, TransitionView>::empty(),
    {
        let tm = TM { rules: Vec::new() };
        assert(tm@ =~= Map::<Key, TransitionView>::empty());
        tm
    }

    /// The position of the rule for (`state`, `read`), if there is one.
    fn position(&self, state: &String, read: &String) -> (found: Option<usize>)
        ensures
            match found {
                Some(i) => selects(self.rules@, (state@, read@), i as int),
                None => forall|i: int| !selects(self.rules@, (state@, read@), i),
            },
    {
        let mut i: usize = 0;
        while i < self.rules.len()
            invariant
                i <= self.rules@.len(),
                forall|j: int| 0 <= j < i ==> !selects(self.rules@, (state@, read@), j),
            decreases self.rules@.len() - i,
        {
            if self.rules[i].state == *state && self.rules[i].read == *read {
                return Some(i);
            }
            i += 1;
        }
        None
    }

    /// The transition for (`state`, `read`), as a direct table lookup.
    pub fn lookup(&self, state: &String, read: &String) -> (found: Option<&Transition>)
        requires
            self.wf(),
        ensures
            match found {
                Some(t) => self@.contains_key((state@, read@)) && self@[(state@, read@)] == t@,
                None => !self@.contains_key((state@, read@)),
            },
    {
        match self.position(state, read) {
            Some(i) => {
                proof {
                    lemma_table_of_rule(self.rules@, i as int);
                }
                Some(&self.rules[i].transition)
            },
            None => None,
        }
    }

    /// Sets the transition for (`state`, `read`), replacing the one that was
    /// there, which is returned.
    pub fn insert(&mut self, state: String, read: String, transition: Transition) -> (previous:
        Option<Transition>)
        requires
            old(self).wf(),
        ensures
            final(self).wf(),
            final(self)@ == old(self)@.insert((state@, read@), transition@),
            match previous {
                Some(t) => {
                    &&& old(self)@.contains_key((state@, read@))
                    &&& old(self)@[(state@, read@)] == t@
                },
                None => !old(self)@.contains_key((state@, read@)),
            },
    {
        let ghost key = (state@, read@);
        let ghost before = self.rules@;
        match self.position(&state, &read) {
            Some(i) => {
                let mut rule = Rule { state, read, transition };
                std::mem::swap(&mut self.rules[i], &mut rule);
                proof {
                    lemma_table_of_rule(before, i as int);
                    lemma_table_after_insert(before, self.rules@, i as int);
                }
                Some(rule.transition)
            },
            None => {
                self.rules.push(Rule { state, read, transition });
                proof {
                    assert forall|a: int| 0 <= a < before.len() implies before[a].key()
                        != key by {
                        assert(!selects(before, key, a));
                    }
                    lemma_table_after_insert(before, self.rules@, before.len() as int);
                }
                None
            },
        }
    }
}

/// Putting a rule at `i`, in place of one with the same key or behind the
/// last rule where no rule has that key, keeps the keys distinct and changes
/// the table at that key and nowhere else.
proof fn lemma_table_after_insert(before: Seq<Rule>, after: Seq<Rule>, i: int)
    requires
        keys_distinct(before),
        0 <= i <= before.len(),
        i < after.len(),
        forall|j: int| 0 <= j < before.len() && j != i ==> #[trigger] after[j] == before[j],
        forall|j: int|
            0 <= j < before.len() && j != i ==> (#[trigger] before[j]).key() != after[i].key(),
        i < before.len() ==> {
            &&& after.len() == before.len()
            &&& before[i].key() == after[i].key()
        },
        i == before.len() ==> after.len() == before.len() + 1,
    ensures
        keys_distinct(after),
        table_of(after) =~= table_of(before).insert(after[i].key(), after[i].transition@),
{
    let key = after[i].key();
    let expected = table_of(before).insert(key, after[i].transition@);
    assert forall|a: int, b: int| 0 <= a < b < after.len() implies after[a].key()
        != after[b].key() by {
        if a != i && b != i {
            assert(before[a].key() != before[b].key());
        }
    }
    assert forall|k: Key| table_of(after).contains_key(k) implies expected.contains_key(k) by {
        let j = choose|j: int| selects(after, k, j);
        if j != i {
            assert(selects(before, k, j));
        }
    }
    assert forall|k: Key| expected.contains_key(k) implies table_of(after).contains_key(k) by {
        if k == key {
            assert(selects(after, k, i));
        } else {
            let j = choose|j: int| selects(before, k, j);
            assert(selects(after, k, j));
        }
    }
    assert forall|k: Key| table_of(after).contains_key(k) implies table_of(after)[k]
        == expected[k] by {
        let j = choose|j: int| selects(after, k, j);
        lemma_table_of_rule(after, j);
        if j != i {
            lemma_table_of_rule(before, j);
        }
    }
}

} // verus!
