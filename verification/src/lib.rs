//! Verified building blocks of the Akita polynomial commitment scheme.

pub mod assignments;
pub mod candidates;
pub mod checked;
pub mod compact;
pub mod compression;
pub mod cyclic;
pub mod cyclotomic;
pub mod decompose;
pub mod dense;
pub mod describe;
pub mod descriptor;
pub mod emit;
pub mod eq_poly;
pub mod error;
pub mod expand;
pub mod family;
pub mod field;
pub mod fused;
pub mod generated;
pub mod grinding;
pub mod identity;
pub mod l2_norm;
pub mod nonce_stream;
pub mod opening_domain;
mod parallel;
pub mod params;
pub mod primality;
pub mod prime_field;
pub mod producers;
pub mod proof_cost;
pub mod quadratic;
pub mod quotients;
pub mod relation;
pub mod ring_lemmas;
pub mod root;
pub mod rules;
pub mod schedule;
pub mod sparse_sampler;
pub mod split_eq;
pub mod text;
pub mod transcript;
pub mod uni_poly;
pub mod walk;
pub mod workers;
