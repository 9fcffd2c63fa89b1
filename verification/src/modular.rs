use vstd::prelude::*;
use vstd::arithmetic::div_mod::lemma_add_mod_noop;
use vstd::arithmetic::div_mod::lemma_sub_mod_noop;
use vstd::arithmetic::div_mod::lemma_mul_mod_noop;
use vstd::arithmetic::div_mod::lemma_small_mod;
use vstd::arithmetic::div_mod::lemma_mod_bound;
use crate::torus::modulus;

verus! {

/// Sum of the products of matching entries of two sequences, over the integers.
pub open spec fn dot(a: Seq<int>, s: Seq<int>) -> int
    decreases a.len(),
{
    if a.len() == 0 || s.len() == 0 {
        0
    } else {
        dot(a.drop_last(), s.drop_last()) + a.last() * s.last()
    }
}

/// Extending both sequences by one entry adds one product to the sum.
pub proof fn lemma_dot_step(a: Seq<int>, s: Seq<int>, i: int)
    requires
        0 <= i < a.len(),
        0 <= i < s.len(),
    ensures
        dot(a.take(i + 1), s.take(i + 1)) == dot(a.take(i), s.take(i)) + a[i] * s[i],
{
    assert(a.take(i + 1).drop_last() =~= a.take(i));
    assert(s.take(i + 1).drop_last() =~= s.take(i));
}

/// Reducing modulo `2^64` before or after a subtraction of a product gives one result.
pub proof fn lemma_sub_product_mod(x: int, a: int, s: int)
    ensures
        ((x % modulus()) - ((a * s) % modulus())) % modulus() == (x - a * s) % modulus(),
{
    lemma_sub_mod_noop(x, a * s, modulus());
}

/// Reducing modulo `2^64` before or after an addition of a product gives one result.
pub proof fn lemma_add_product_mod(x: int, a: int, s: int)
    ensures
        ((x % modulus()) + ((a * s) % modulus())) % modulus() == (x + a * s) % modulus(),
{
    lemma_add_mod_noop(x, a * s, modulus());
}

/// A numerator in range is its own residue.
pub proof fn lemma_in_range_mod(x: int)
    requires
        0 <= x < modulus(),
    ensures
        x % modulus() == x,
{
    lemma_small_mod(x as nat, modulus() as nat);
}

/// Adding and then subtracting one value modulo `2^64` gives the start back.
pub proof fn lemma_add_sub_cancel(x: int, y: int)
    requires
        0 <= x < modulus(),
    ensures
        ((x + y) % modulus() - y) % modulus() == x,
        ((x - y) % modulus() + y) % modulus() == x,
{
    lemma_sub_mod_noop(x + y, y, modulus());
    lemma_add_mod_noop(x - y, y, modulus());
    lemma_mod_bound(x + y, modulus());
    lemma_mod_bound(x - y, modulus());
    lemma_mod_bound(y, modulus());
    lemma_small_mod((y % modulus()) as nat, modulus() as nat);
    // ((x + y) % M - y) % M == ((x + y) % M % M - y % M) % M == ((x + y) - y) % M
    vstd::arithmetic::div_mod::lemma_mod_twice(x + y, modulus());
    vstd::arithmetic::div_mod::lemma_mod_twice(x - y, modulus());
    lemma_sub_mod_noop((x + y) % modulus(), y, modulus());
    lemma_add_mod_noop((x - y) % modulus(), y, modulus());
    lemma_small_mod(x as nat, modulus() as nat);
}

/// Reducing the left summand first does not change a sum's residue.
pub proof fn lemma_mod_add_left(x: int, y: int)
    ensures
        ((x % modulus()) + y) % modulus() == (x + y) % modulus(),
{
    lemma_add_mod_noop(x, y, modulus());
    lemma_add_mod_noop(x % modulus(), y, modulus());
    vstd::arithmetic::div_mod::lemma_mod_twice(x, modulus());
}

/// Reducing the right summand first does not change a sum's residue.
pub proof fn lemma_mod_add_right(x: int, y: int)
    ensures
        (x + (y % modulus())) % modulus() == (x + y) % modulus(),
{
    lemma_add_mod_noop(x, y, modulus());
    lemma_add_mod_noop(x, y % modulus(), modulus());
    vstd::arithmetic::div_mod::lemma_mod_twice(y, modulus());
}

} // verus!
