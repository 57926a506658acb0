//! The closed error taxonomy: every failure of building, serializing,
//! appending or verifying a token is one of these kinds, surfaced verbatim
//! to the caller.

use vstd::prelude::*;

verus! {

/// Top-level error kind returned by every fallible operation of the library.
#[derive(Debug, PartialEq)]
pub enum Error {
    /// invariant violation inside the engine itself
    InternalError,
    /// error deserializing or verifying the token
    Format(Format),
    /// the authority block must have the index 0
    InvalidAuthorityIndex(u32),
    /// the block index does not match its position
    InvalidBlockIndex(InvalidBlockIndex),
    /// multiple blocks declare the same symbols
    SymbolTableOverlap,
    /// a symbol index could not be resolved against the table
    MissingSymbols,
    /// tried to append a block to a sealed token
    Sealed,
    /// caveat validation failed
    FailedLogic(Logic),
    /// malformed rule, fact or constraint at construction time
    ParseError,
}

/// Expected and found index of a block whose position does not match.
#[derive(Debug, PartialEq)]
pub struct InvalidBlockIndex {
    pub expected: u32,
    pub found: u32,
}

/// Malformed or untrusted token bytes.
#[derive(Debug, PartialEq)]
pub enum Format {
    /// failed verifying the signature
    Signature(Signature),
    /// failed verifying the signature of a sealed token
    SealedSignature,
    /// the token does not provide intermediate public keys
    EmptyKeys,
    /// the root public key was not recognized
    UnknownPublicKey,
    /// could not deserialize the wrapper object
    DeserializationError(String),
    /// could not serialize the wrapper object
    SerializationError(String),
    /// could not deserialize the block
    BlockDeserializationError(String),
    /// could not serialize the block
    BlockSerializationError(String),
}

/// Failure kinds of the signature chain.
#[derive(Debug, PartialEq)]
pub enum Signature {
    /// could not parse the signature elements
    InvalidFormat,
    /// the signature did not match
    InvalidSignature,
}

/// Policy-level denial: the token's or the verifier's logic rejected the
/// request.
#[derive(Debug, PartialEq)]
pub enum Logic {
    /// a fact of the authority block did not have the authority tag
    InvalidAuthorityFact(String),
    /// a fact provided or generated by the verifier did not have the ambient tag
    InvalidAmbientFact(String),
    /// a fact provided or generated by a block had the authority or ambient tag
    InvalidBlockFact(InvalidBlockFact),
    /// a rule provided by a block generates, or could generate, facts with
    /// the authority or ambient tag
    InvalidBlockRule(InvalidBlockRule),
    /// list of caveats that failed validation
    FailedCaveats(Vec<FailedCaveat>),
}

/// A fact of a non-authority block that claimed an authority or ambient scope.
#[derive(Debug, PartialEq)]
pub struct InvalidBlockFact {
    pub block_id: u32,
    pub fact: String,
}

/// A rule of a non-authority block whose head claims an authority or ambient
/// scope, or could instantiate to one.
#[derive(Debug, PartialEq)]
pub struct InvalidBlockRule {
    pub block_id: u32,
    pub rule: String,
}

/// One caveat that did not hold at verification time.
#[derive(Debug, PartialEq)]
pub enum FailedCaveat {
    /// a caveat failed in a block
    Block(FailedBlockCaveat),
    /// a caveat provided by the verifier failed
    Verifier(FailedVerifierCaveat),
}

/// A failing caveat declared by a token block.
#[derive(Debug, PartialEq)]
pub struct FailedBlockCaveat {
    pub block_id: u32,
    pub caveat_id: u32,
    /// pretty print of the rule that failed
    pub rule: String,
}

/// A failing caveat declared by the verifier.
#[derive(Debug, PartialEq)]
pub struct FailedVerifierCaveat {
    pub caveat_id: u32,
    /// pretty print of the rule that failed
    pub rule: String,
}

} // verus!
