//! A string of at most eight bytes held in one `u64`.
//!
//! The bytes are packed most significant first and unused positions are
//! filled with the null byte, which is therefore not allowed in the content.
mod model;
mod string64;

pub use model::{
    be_value, contains_null, encodable, lemma_accepted_inputs_are_distinct,
    lemma_be_value_bound, lemma_be_value_injective, lemma_determinism, lemma_length_rejection,
    lemma_null_rejection, outcome, packed, padded, zeros,
};
pub use string64::{packed_result, EncodingError, String64};
