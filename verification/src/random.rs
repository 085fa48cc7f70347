//! Fresh randomness, drawn from the `rand` crate's thread-local generator.
//!
//! Two calls may return different values: the contracts here state only what
//! holds of every outcome.

use vstd::prelude::*;

verus! {

/// Calls `rand::Rng::gen_range(0, upper)` on `rand::thread_rng()`.
///
/// Trusted: the sample lies in the half-open range from `0` to `upper`.
/// `gen_range` panics on an empty range, which `requires` leaves out.
#[verifier::external_body]
pub(crate) fn random_below(upper: i32) -> (r: i32)
    requires
        0 < upper,
    ensures
        0 <= r < upper,
{
    rand::Rng::gen_range(&mut rand::thread_rng(), 0, upper)
}

/// Calls `rand::Rng::gen::<i32>()` on `rand::thread_rng()`.
///
/// Trusted: nothing but the type of the sample.
#[verifier::external_body]
pub(crate) fn random_i32() -> i32 {
    rand::Rng::gen::<i32>(&mut rand::thread_rng())
}

/// The leaf salt made from a raw sample `r`: its magnitude, with the one
/// sample whose magnitude does not fit mapped to the largest salt.
pub open spec fn salt_of(r: int) -> int {
    if r == i32::MIN {
        i32::MAX as int
    } else if r < 0 {
        -r
    } else {
        r
    }
}

/// Turns a raw sample into a leaf salt.
pub fn salt_from(r: i32) -> (salt: i32)
    ensures
        salt == salt_of(r as int),
        salt >= 0,
{
    if r == i32::MIN {
        i32::MAX
    } else if r < 0 {
        -r
    } else {
        r
    }
}

/// Draws a sign, `1` or `-1`.
pub fn draw_sign() -> (sign: i32)
    ensures
        sign == 1 || sign == -1,
{
    sign_from(random_below(2))
}

/// Draws a shift between `0` and `largest`, both included.
pub fn draw_shift(largest: i32) -> (shift: i32)
    requires
        0 <= largest < i32::MAX,
    ensures
        0 <= shift <= largest,
{
    random_below(largest + 1)
}

/// Draws `count` leaf salts, none of them negative.
pub fn draw_salts(count: usize) -> (salts: Vec<i32>)
    ensures
        salts@.len() == count,
        forall|i: int| 0 <= i < count ==> salts@[i] >= 0,
{
    let mut salts: Vec<i32> = Vec::new();
    let mut i: usize = 0;
    while i < count
        invariant
            i <= count,
            salts@.len() == i,
            forall|k: int| 0 <= k < i ==> salts@[k] >= 0,
        decreases count - i,
    {
        salts.push(salt_from(random_i32()));
        i = i + 1;
    }
    salts
}

/// The sign made from a sample that is `0` or `1`: `1` for `0`, `-1` for
/// `1`.
pub open spec fn sign_of(sample: int) -> int {
    1 - 2 * sample
}

/// Turns a sample that is `0` or `1` into a sign.
pub fn sign_from(sample: i32) -> (sign: i32)
    requires
        0 <= sample <= 1,
    ensures
        sign == sign_of(sample as int),
{
    1 - 2 * sample
}

} // verus!
