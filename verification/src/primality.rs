//! The primality test of the `primal` crate.
//!
//! Nothing in this file is proved: the contract states what the
//! documentation of `primal` says of the function that the body calls.

use vstd::prelude::*;

verus! {

/// The number is prime: it is at least 2 and no number between 1 and
/// itself divides it.
pub open spec fn is_prime(n: int) -> bool {
    n >= 2 && forall|d: int| 2 <= d < n ==> #[trigger] (n % d) != 0
}

/// `primal::is_prime`, the deterministic Miller-Rabin test: whether the
/// number is prime.
#[verifier::external_body]
pub(crate) fn check_prime(n: u64) -> (r: bool)
    ensures
        r == is_prime(n as int),
{
    primal::is_prime(n)
}

} // verus!
