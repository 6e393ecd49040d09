//! Index translation between the natural order of an evaluation domain and the
//! bit-reversed, coset-blocked order in which a FRI oracle stores its values.

pub mod bit_reversal;
pub mod combiner;
pub mod index_model;
pub mod laws;
