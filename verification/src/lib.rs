//! An additively homomorphic public-key cryptosystem after Paillier, over
//! integers of 256 bits, and an encrypted counter built on it.
//!
//! Whoever holds the public key can encrypt a number and add to an encrypted
//! count; only the holder of the private key can read the count. Every
//! function carries a contract over the numbers that its arguments stand
//! for, and the laws of the scheme are proved from those contracts.

pub mod arith;
pub mod fermat;
pub mod homomorphic;
pub mod laws;
pub mod modexp;
pub mod paillier;
pub mod uint;
