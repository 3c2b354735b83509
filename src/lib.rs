//! Verified arithmetic core of a TFHE-style blind-rotation step over the
//! Goldilocks field: the negacyclic number-theoretic transform, vector
//! arithmetic, signed digit decomposition, the GLWE / GLEV / GGSW ciphertext
//! algebra and the per-row step function of the blind-rotation recurrence.

pub mod field;
pub mod vec_arithmetic;
pub mod ntt;
pub mod decompose;
pub mod glwe_poly;
pub mod glwe_ct;
pub mod glev_ct;
pub mod ggsw_ct;
pub mod step;
pub mod vpbs;
