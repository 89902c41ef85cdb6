//! Random-sampling helpers: dice rolls, probability checks and uniform
//! choice from a slice, built on the `rand` crate.
//!
//! Nothing can be promised about an individual sample, so the contracts
//! state only what holds of every outcome: the bounds of the sampled
//! value and the cases with a fixed answer.

use vstd::prelude::*;
use rand::Rng;

verus! {

/// Relies on `rand::Rng::gen_range`: returns a uniformly sampled value in
/// `[a, b)`. The call panics when `a >= b`, which the precondition rules out.
#[verifier::external_body]
fn range_u32(a: u32, b: u32) -> (r: u32)
    requires
        a < b,
    ensures
        a <= r < b,
{
    rand::thread_rng().gen_range(a, b)
}

/// Relies on `rand::Rng::gen_range`: returns a uniformly sampled index in
/// `[a, b)`. The call panics when `a >= b`, which the precondition rules out.
#[verifier::external_body]
fn range_usize(a: usize, b: usize) -> (r: usize)
    requires
        a < b,
    ensures
        a <= r < b,
{
    rand::thread_rng().gen_range(a, b)
}

/// Roll a dice of `n` sides a certain number of times and return the
/// accumulated result: zero when either argument is zero, otherwise the
/// sum of `times` samples from `[1, n]`. The total must fit in the result
/// type, which bounding it by `times * n` guarantees.
pub fn roll(n: u32, times: u32) -> (r: u32)
    requires
        (times as nat) * (n as nat) <= u32::MAX,
    ensures
        n == 0 || times == 0 ==> r == 0,
        n > 0 && times > 0 ==> times <= r && r as nat <= (times as nat) * (n as nat),
{
    if n == 0 || times == 0 {
        return 0;
    }
    let mut total: u32 = 0;
    let mut i: u32 = 0;
    while i < times
        invariant
            0 < n,
            i <= times,
            (times as nat) * (n as nat) <= u32::MAX,
            i <= total,
            total as nat <= (i as nat) * (n as nat),
        decreases times - i,
    {
        proof {
            assert(((i + 1) as nat) * (n as nat) == (i as nat) * (n as nat) + n)
                by (nonlinear_arith);
            assert(((i + 1) as nat) * (n as nat) <= (times as nat) * (n as nat))
                by (nonlinear_arith)
                requires
                    i + 1 <= times,
                    n >= 0,
            ;
        }
        let d = range_u32(0, n);
        total = total + 1 + d;
        i = i + 1;
    }
    total
}

/// Return true with a one-in-`n` probability; always true for `n < 2`.
pub fn one_in(n: u32) -> (r: bool)
    ensures
        n < 2 ==> r,
{
    if n < 2 {
        return true;
    }
    range_u32(0, n) == 0
}

/// Return a reference to a uniformly chosen item of a slice, or `None`
/// exactly when the slice is empty.
pub fn choice<T>(slice: &[T]) -> (r: Option<&T>)
    ensures
        r is None <==> slice@.len() == 0,
        r matches Some(x) ==> exists|i: int| 0 <= i < slice@.len() && *x == slice@[i],
{
    if slice.is_empty() {
        return None;
    }
    let idx = range_usize(0, slice.len());
    Some(&slice[idx])
}

} // verus!
