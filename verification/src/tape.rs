//! The sparse, bi-infinite tape of one simulation run.

use std::collections::HashMap;
use vstd::prelude::*;

verus! {

broadcast use vstd::std_specs::hash::group_hash_axioms;

/// The symbol under `pos` on a tape whose written cells are `written`: the
/// written symbol, or `blank` where nothing was written.
pub open spec fn cell(written: Map<int, Seq<char>>, blank: Seq<char>, pos: int) -> Seq<char> {
    if written.contains_key(pos) {
        written[pos]
    } else {
        blank
    }
}

/// A tape that stores only the cells that were written. Positions are wide
/// enough that a head starting at 0 cannot leave them within `usize::MAX`
/// steps.
pub struct Tape {
    pub map: HashMap<i128, String>,
    pub default_symbol: String,
}

impl Tape {
    /// The written cells, by position.
    pub open spec fn written(&self) -> Map<int, Seq<char>> {
        Map::new(
            |p: int| i128::MIN <= p <= i128::MAX && self.map@.contains_key(p as i128),
            |p: int| self.map@[p as i128]@,
        )
    }

    /// The symbol that every unwritten cell holds.
    pub open spec fn blank(&self) -> Seq<char> {
        self.default_symbol@
    }

    /// An all-blank tape.
    pub fn new(default_symbol: String) -> (tape: Tape)
        ensures
            tape.written() == Map::<int, Seq<char>>::empty(),
            tape.blank() == default_symbol@,
    {
        Tape { map: HashMap::new(), default_symbol }
    }

    /// Reads the cell at `pos`. Reading never creates an entry.
    pub fn symbol_at(&self, pos: i128) -> (sym: String)
        ensures
            sym@ == cell(self.written(), self.blank(), pos as int),
    {
        match self.map.get(&pos) {
            Some(sym) => sym.clone(),
            None => self.default_symbol.clone(),
        }
    }

    /// Writes `new_sym` at `pos` and leaves every other cell as it was.
    pub fn set_symbol_at(&mut self, pos: i128, new_sym: String)
        ensures
            final(self).written() == old(self).written().insert(pos as int, new_sym@),
            final(self).blank() == old(self).blank(),
    {
        self.map.insert(pos, new_sym);
    }
}

} // verus!
