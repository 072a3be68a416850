//! Compression of unsigned 32-bit integers through their prime factorization.
//!
//! An integer is represented as a non-decreasing sequence of indices into a
//! shared ascending prime table; that sequence is run-length coded and written
//! with a variable-length bit codec into a growable bit buffer.

pub mod bit_arith;
pub mod dyn_bit_string;
pub mod encode_prime;
pub mod encoding_small_int;
pub mod encoding_u32;
pub mod encoding_uint;
pub mod encoding_uint_trait;
pub mod get_env_var;
pub mod primality;
pub mod prime_store;
pub mod primes;
mod raw_bits;
