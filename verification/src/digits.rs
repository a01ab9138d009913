//! Numbers read as rows of digits in a base: how the machines of an
//! enumeration are numbered.

use vstd::arithmetic::div_mod::{
    lemma_basic_div, lemma_div_denominator, lemma_div_non_zero, lemma_div_pos_is_pos,
    lemma_fundamental_div_mod, lemma_fundamental_div_mod_converse, lemma_multiply_divide_lt,
};
use vstd::arithmetic::power::{lemma0_pow, lemma_pow_positive, pow};
use vstd::prelude::*;

verus! {

/// `index` with its `j` lowest digits in base `base` dropped.
pub open spec fn shifted(index: int, j: nat, base: int) -> int
    decreases j,
{
    if j == 0 {
        index
    } else {
        shifted(index, (j - 1) as nat, base) / base
    }
}

/// Digit `j` of `index` in base `base`, the lowest digit being digit 0.
pub open spec fn digit(index: int, j: nat, base: int) -> int {
    shifted(index, j, base) % base
}

/// The number of ways to assign one of `transitions` transitions to each of
/// `keys` keys, each choice made independently: the numbers of `keys` digits
/// in base `transitions`.
pub open spec fn assignment_count(keys: nat, transitions: nat) -> nat {
    pow(transitions as int, keys) as nat
}

/// Dropping `j` digits divides by the `j`-th power of the base.
pub proof fn lemma_shifted_is_quotient(index: int, j: nat, base: int)
    requires
        0 <= index,
        0 < base,
    ensures
        0 < pow(base, j),
        shifted(index, j, base) == index / pow(base, j),
    decreases j,
{
    lemma_pow_positive(base, j);
    reveal(pow);
    if j > 0 {
        let lower = (j - 1) as nat;
        lemma_shifted_is_quotient(index, lower, base);
        lemma_pow_positive(base, lower);
        lemma_div_denominator(index, pow(base, lower), base);
        assert(pow(base, j) == base * pow(base, lower));
        assert(base * pow(base, lower) == pow(base, lower) * base) by (nonlinear_arith);
    }
}

/// An index is below the number of assignments exactly when nothing is left
/// of it after one digit was taken for each key.
pub proof fn lemma_in_range_iff_used_up(index: int, keys: nat, base: nat)
    requires
        0 <= index,
        0 < base || keys == 0,
    ensures
        index < assignment_count(keys, base) <==> shifted(index, keys, base as int) == 0,
{
    reveal(pow);
    if keys > 0 {
        lemma_shifted_is_quotient(index, keys, base as int);
        let count = pow(base as int, keys);
        if index < count {
            lemma_basic_div(index, count);
        } else {
            lemma_div_non_zero(index, count);
        }
    }
}

/// Dropping `j` digits is dropping the lowest digit and then `j - 1` more.
pub proof fn lemma_shifted_from_below(index: int, j: nat, base: int)
    requires
        j > 0,
    ensures
        shifted(index, j, base) == shifted(index / base, (j - 1) as nat, base),
    decreases j,
{
    let lower = (j - 1) as nat;
    assert(shifted(index, j, base) == shifted(index, lower, base) / base);
    if lower == 0 {
        assert(shifted(index, 0, base) == index);
        assert(shifted(index / base, 0, base) == index / base);
    } else {
        lemma_shifted_from_below(index, lower, base);
        assert(shifted(index / base, lower, base) == shifted(
            index / base,
            (lower - 1) as nat,
            base,
        ) / base);
    }
}

/// The number whose digits in base `base` are `choice`, lowest digit first.
pub open spec fn number_of(choice: Seq<int>, base: int) -> int
    decreases choice.len(),
{
    if choice.len() == 0 {
        0
    } else {
        choice[0] + base * number_of(choice.skip(1), base)
    }
}

/// Every choice of one transition for each key has a number: for digits
/// `choice`, each below `base`, `number_of` is below the number of
/// assignments and has exactly those digits.
pub proof fn lemma_every_choice_has_a_number(choice: Seq<int>, base: nat)
    requires
        forall|j: int| 0 <= j < choice.len() ==> 0 <= #[trigger] choice[j] < base,
    ensures
        0 <= number_of(choice, base as int) < assignment_count(choice.len(), base),
        forall|j: int|
            0 <= j < choice.len() ==> digit(number_of(choice, base as int), j as nat, base as int)
                == #[trigger] choice[j],
    decreases choice.len(),
{
    reveal(pow);
    let b = base as int;
    if choice.len() > 0 {
        let rest = choice.skip(1);
        let upper = number_of(rest, b);
        let number = number_of(choice, b);
        assert(0 <= choice[0] < base);
        assert forall|j: int| 0 <= j < rest.len() implies 0 <= #[trigger] rest[j] < base by {
            assert(rest[j] == choice[j + 1]);
        }
        lemma_every_choice_has_a_number(rest, base);
        let power = pow(b, rest.len());
        lemma_pow_positive(b, rest.len());
        assert(pow(b, choice.len()) == b * power);
        assert(0 <= choice[0] + b * upper < b * power) by (nonlinear_arith)
            requires
                0 <= choice[0] < b,
                0 <= upper < power,
        ;
        assert(number == upper * b + choice[0]) by (nonlinear_arith)
            requires
                number == choice[0] + b * upper,
        ;
        lemma_fundamental_div_mod_converse(number, b, upper, choice[0]);
        assert forall|j: int| 0 <= j < choice.len() implies digit(number, j as nat, b)
            == #[trigger] choice[j] by {
            if j > 0 {
                lemma_shifted_from_below(number, j as nat, b);
                assert(rest[j - 1] == choice[j]);
            }
        }
    }
}

/// Two numbers below the number of assignments that agree in the digit of
/// every key are the same number.
pub proof fn lemma_same_digits_same_number(i1: int, i2: int, keys: nat, base: nat)
    requires
        0 <= i1 < assignment_count(keys, base),
        0 <= i2 < assignment_count(keys, base),
        forall|j: nat|
            j < keys ==> #[trigger] digit(i1, j, base as int) == digit(i2, j, base as int),
    ensures
        i1 == i2,
    decreases keys,
{
    reveal(pow);
    let b = base as int;
    if keys > 0 {
        if base == 0 {
            lemma0_pow(keys);
        }
        let lower = (keys - 1) as nat;
        let power = pow(b, lower);
        lemma_pow_positive(b, lower);
        assert(pow(b, keys) == b * power);
        assert(digit(i1, 0, b) == digit(i2, 0, b));
        assert(power * b == b * power) by (nonlinear_arith);
        lemma_multiply_divide_lt(i1, b, power);
        lemma_multiply_divide_lt(i2, b, power);
        lemma_div_pos_is_pos(i1, b);
        lemma_div_pos_is_pos(i2, b);
        let (q1, q2) = (i1 / b, i2 / b);
        assert forall|j: nat| j < lower implies #[trigger] digit(q1, j, b) == digit(q2, j, b) by {
            lemma_shifted_from_below(i1, j + 1, b);
            lemma_shifted_from_below(i2, j + 1, b);
            assert(digit(i1, j + 1, b) == digit(i2, j + 1, b));
        }
        lemma_same_digits_same_number(q1, q2, lower, base);
        lemma_fundamental_div_mod(i1, b);
        lemma_fundamental_div_mod(i2, b);
    }
}

} // verus!
