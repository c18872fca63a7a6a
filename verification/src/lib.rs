//! Search for integers of high multiplicative persistence.
//!
//! A candidate is described by an exponent vector over the primes up to the
//! radix. The pieces, leaves first: exponent vectors and their order
//! (`vectors`), elementary number theory (`primality`), the prime basis and the
//! factorizer (`basis`), the enumerator of exponent vectors (`stars_bars`),
//! arbitrary-precision integers (`large`), digits and resistance (`digits`),
//! the assembler (`assemble`) and the search itself (`search`).

pub mod vectors;
pub mod primality;
pub mod basis;
pub mod stars_bars;
pub mod large;
pub mod digits;
pub mod assemble;
pub mod search;
