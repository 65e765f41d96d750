//! Key generation for a single-modulus RLWE homomorphic encryption scheme:
//! ternary secret keys, public keys, and three kinds of relinearization keys.
pub mod poly;
pub mod sampling;
pub mod keys;
