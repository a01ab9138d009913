//! The Cartesian product of two lists.

use itertools::Itertools;
use vstd::prelude::*;

verus! {

/// The pairs of one entry of `left` and one of `right`, by reference. This
/// calls `Itertools::cartesian_product` on the two lists' iterators and
/// collects what it yields. The contract claims what that adaptor does: it
/// takes the entries of `left` in order and pairs each, before going on to
/// the next, with every entry of `right` in order. The bound keeps the
/// collected list within what a vector can allocate.
#[verifier::external_body]
pub(crate) fn cartesian_product<'a, A, B>(left: &'a Vec<A>, right: &'a Vec<B>) -> (pairs: Vec<
    (&'a A, &'a B),
>)
    requires
        left@.len() * right@.len() <= usize::MAX / 64,
    ensures
        pairs@.len() == left@.len() * right@.len(),
        forall|k: int|
            0 <= k < pairs@.len() ==> (#[trigger] pairs@[k]) == (
                &left@[k / (right@.len() as int)],
                &right@[k % (right@.len() as int)],
            ),
{
    left.iter().cartesian_product(right.iter()).collect()
}

/// Position `k` of a product with `cols` columns lies in a row below `rows`
/// and in a column below `cols`, and is found again from the two.
pub proof fn lemma_product_position(k: int, rows: int, cols: int)
    requires
        0 <= rows,
        0 <= cols,
        0 <= k < rows * cols,
    ensures
        0 < cols,
        0 <= k / cols < rows,
        0 <= k % cols < cols,
        k == (k / cols) * cols + k % cols,
{
    assert(0 < cols) by (nonlinear_arith)
        requires
            0 <= rows,
            0 <= cols,
            0 <= k < rows * cols,
    ;
    vstd::arithmetic::div_mod::lemma_fundamental_div_mod(k, cols);
    vstd::arithmetic::div_mod::lemma_mod_bound(k, cols);
    vstd::arithmetic::div_mod::lemma_div_pos_is_pos(k, cols);
    assert(rows * cols == cols * rows) by (nonlinear_arith);
    vstd::arithmetic::div_mod::lemma_multiply_divide_lt(k, cols, rows);
    assert((k / cols) * cols == cols * (k / cols)) by (nonlinear_arith);
}

/// The position of row `row` and column `col` in a product with `cols`
/// columns lies below `rows * cols`, and gives the two back.
pub proof fn lemma_product_index(row: int, col: int, rows: int, cols: int)
    requires
        0 <= row < rows,
        0 <= col < cols,
    ensures
        0 <= row * cols + col < rows * cols,
        (row * cols + col) / cols == row,
        (row * cols + col) % cols == col,
{
    assert(0 <= row * cols + col < rows * cols) by (nonlinear_arith)
        requires
            0 <= row < rows,
            0 <= col < cols,
    ;
    vstd::arithmetic::div_mod::lemma_fundamental_div_mod_converse(row * cols + col, cols, row, col);
}

} // verus!
