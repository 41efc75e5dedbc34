pub mod bounds;
pub mod divisors;
pub mod factors;
pub mod primes;
pub mod sieve;
pub mod tiny_map;

pub use tiny_map::{TinyMap, TinyMapEntry};
