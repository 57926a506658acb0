//! An authorization-token library: a token is a signed, append-only chain of
//! blocks holding facts, rules and caveats in a restricted Datalog; a verifier
//! checks the signature chain, computes the fixpoint of the combined fact set
//! and grants the request only if every caveat holds.

pub mod error;
pub mod symbols;
pub mod datalog;
pub mod wire;
pub mod engine;
pub mod crypto;
pub mod codec;
pub mod builder;
pub mod token;
pub mod printer;
pub mod verification;
pub mod laws;
