//! Head movements: the three directions and their displacements.

use vstd::prelude::*;
use vstd::string::*;

verus! {

/// The direction that moves the head one cell to the left.
pub open spec fn left() -> Seq<char> {
    seq!['<']
}

/// The direction that moves the head one cell to the right.
pub open spec fn right() -> Seq<char> {
    seq!['>']
}

/// The direction that leaves the head where it is.
pub open spec fn stay() -> Seq<char> {
    seq!['-']
}

/// Whether `direction` is one of the three head movements.
pub open spec fn is_direction(direction: Seq<char>) -> bool {
    direction =~= left() || direction =~= right() || direction =~= stay()
}

/// The head's displacement for a direction: -1, +1 or 0 cells.
pub open spec fn displacement(direction: Seq<char>) -> int {
    if direction =~= left() {
        -1
    } else if direction =~= right() {
        1
    } else {
        0
    }
}

/// Tells whether `direction` is one of `<`, `>` and `-`.
pub fn direction_is_known(direction: &String) -> (known: bool)
    ensures
        known == is_direction(direction@),
{
    let text = direction.as_str();
    if text.unicode_len() != 1 {
        return false;
    }
    let c = text.get_char(0);
    c == '<' || c == '>' || c == '-'
}

/// The head's displacement for `direction`: -1 for `<`, +1 for `>`, 0 for
/// `-`. Any other direction is a fault in the configuration and is not
/// accepted here.
pub fn movement_for_direction(direction: String) -> (cells: i32)
    requires
        is_direction(direction@),
    ensures
        cells == displacement(direction@),
{
    let c = direction.as_str().get_char(0);
    if c == '<' {
        -1
    } else if c == '>' {
        1
    } else {
        0
    }
}

} // verus!
