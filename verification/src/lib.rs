//! A byte-oriented JSON codec for line-delimited services, with the
//! request/response rule of a small primality service built on it.

pub mod json;
pub mod prime_time;
