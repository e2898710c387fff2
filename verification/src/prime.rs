//! The prime-checking responder.
//!
//! A request carries a method name and a number; the one valid method is
//! `isPrime`.  The number counts as prime only when it is a nonnegative
//! integer (carried here as `Some` of its value) that is prime; any
//! fractional, negative or non-finite number is simply not prime.

use vstd::prelude::*;
use vstd::string::StringExecFns;

verus! {

/// Mathematical primality.
pub open spec fn spec_prime(n: int) -> bool {
    n >= 2 && forall|m: int| 2 <= m < n ==> #[trigger] (n % m) != 0
}

/// The dependency's trial-division loop tests odd divisors `m` while
/// `m * m <= n`, computing `m * m` in `u64`; once `m` passes `u32::MAX`
/// that square overflows.  Only a prime at or above `(u32::MAX)^2` drives
/// `m` that far, so numbers below this limit are safe to hand over.
pub const PRIMES_TRIAL_DIVISION_LIMIT: u64 = 18446744065119617025;

/// Relies on `primes::is_prime`: false for 0 and 1, else true exactly when
/// no number from 2 up divides `n` before `n` itself does.  The bound keeps
/// the dependency's `m * m` trial bound from overflowing.
#[verifier::external_body]
fn primes_is_prime(n: u64) -> (r: bool)
    requires
        n < PRIMES_TRIAL_DIVISION_LIMIT,
    ensures
        r == spec_prime(n as int),
{
    primes::is_prime(n)
}

/// A checking request.  `number` holds the value when the request's number
/// is a nonnegative integer in range, and nothing otherwise.
#[derive(Clone, Debug)]
pub struct Request {
    pub method: String,
    pub number: Option<u64>,
}

impl Request {
    /// Whether the method names the one operation the service offers.
    pub fn method_is_valid(&self) -> (r: bool)
        ensures
            r == (self.method@ == "isPrime"@),
    {
        let expected = String::from_str("isPrime");
        self.method == expected
    }

    /// Whether the request's number is a prime integer.  A number at or
    /// past the dependency's safe limit is not treated as a candidate.
    pub fn is_prime(&self) -> (r: bool)
        ensures
            r == (self.number matches Some(n) && n < PRIMES_TRIAL_DIVISION_LIMIT && spec_prime(
                n as int,
            )),
    {
        match self.number {
            Some(n) => if n < PRIMES_TRIAL_DIVISION_LIMIT {
                primes_is_prime(n)
            } else {
                false
            },
            None => false,
        }
    }
}

/// The reply: the method answered, and the verdict.
#[derive(Clone, Debug)]
pub struct Response {
    pub method: &'static str,
    pub prime: bool,
}

impl Response {
    /// A reply to a well-formed request.
    pub fn new(prime: bool) -> (r: Response)
        ensures
            r.prime == prime,
            r.method@ == "isPrime"@,
    {
        Response { method: "isPrime", prime }
    }
}

} // verus!
