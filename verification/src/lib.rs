//! Low-degree testing with FRI over the 64-bit prime field and its cubic
//! extension, with every function verified against a mathematical model.

pub mod algebraic_hasher;
pub mod b_field_element;
pub mod blake3_hasher;
pub mod codec;
pub mod codec_laws;
pub mod database_vector;
pub mod digest;
pub mod domain_laws;
pub mod fold_laws;
pub mod fri;
pub mod fri_domain;
pub mod fri_laws;
pub mod merkle_laws;
pub mod merkle_tree;
pub mod ntt;
pub mod polynomial;
pub mod power_of_two;
pub mod proof_stream;
pub mod refusal_laws;
pub mod x_field_element;
pub mod x_field_laws;
