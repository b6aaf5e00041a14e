//! A Hamming(13,8) error-correcting codec over fixed-width bit vectors,
//! with a fault injector that inverts random bits of a codeword.

pub mod bits;
pub mod charset;
pub mod encoding;
