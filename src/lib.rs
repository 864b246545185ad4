//! A line-oriented primality service: the membership index that answers
//! primality queries, the per-connection protocol decisions, and the
//! fixed-record price session.
pub mod bits;
pub mod primes;
pub mod protocol;
pub mod prices;
