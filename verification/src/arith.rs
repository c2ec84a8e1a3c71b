//! Modular-arithmetic lemmas shared by the rotor model.
//!
//! A rotor is a cyclic shift `i -> (start + i) % n`; everything the engine
//! proves about rotors reduces to these facts about `%`.

use vstd::arithmetic::div_mod::{
    lemma_add_mod_noop, lemma_mod_add_multiples_vanish, lemma_mod_division_less_than_divisor,
    lemma_mod_twice, lemma_small_mod,
};
use vstd::prelude::*;

verus! {

/// `%` keeps a nonnegative value inside `[0, n)`.
pub proof fn lemma_mod_in_range(a: int, n: int)
    requires
        n > 0,
    ensures
        0 <= a % n < n,
{
    lemma_mod_division_less_than_divisor(a, n);
}

/// Reducing the left summand before adding does not change the sum mod `n`.
pub proof fn lemma_mod_add_left(a: int, b: int, n: int)
    requires
        n > 0,
    ensures
        (a % n + b) % n == (a + b) % n,
{
    lemma_add_mod_noop(a, b, n);
    lemma_add_mod_noop(a % n, b, n);
    lemma_mod_twice(a, n);
}

/// Reducing the right summand before adding does not change the sum mod `n`.
pub proof fn lemma_mod_add_right(a: int, b: int, n: int)
    requires
        n > 0,
    ensures
        (a + b % n) % n == (a + b) % n,
{
    lemma_mod_add_left(b, a, n);
}

/// A full extra turn of `n` vanishes under `% n`.
pub proof fn lemma_mod_drop_turn(x: int, n: int)
    requires
        n > 0,
        0 <= x < n,
    ensures
        (x + n) % n == x,
{
    lemma_mod_add_multiples_vanish(x, n);
    lemma_small_mod(x as nat, n as nat);
}

/// Applying a cyclic shift by `s` and then shifting back by `n - s`
/// returns the original position.
pub proof fn lemma_shift_then_unshift(s: int, x: int, n: int)
    requires
        n > 0,
        0 <= s < n,
        0 <= x < n,
    ensures
        ((s + x) % n + n - s) % n == x,
{
    lemma_mod_add_left(s + x, n - s, n);
    lemma_mod_drop_turn(x, n);
}

/// Shifting back by `n - s` and then applying the shift by `s`
/// returns the original position.
pub proof fn lemma_unshift_then_shift(s: int, y: int, n: int)
    requires
        n > 0,
        0 <= s < n,
        0 <= y < n,
    ensures
        (s + (y + n - s) % n) % n == y,
{
    lemma_mod_add_right(s, y + n - s, n);
    lemma_mod_drop_turn(y, n);
}

} // verus!
