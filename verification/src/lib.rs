//! Counting and listing the primes below a bound with a bit-packed sieve of
//! Eratosthenes that stores odd numbers only.

pub mod bitfield;
pub mod input;
pub mod isqrt;
pub mod output;
pub mod primality;
pub mod sieve;
