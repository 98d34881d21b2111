use vstd::prelude::*;

verus! {

/// Every failure the core can surface.
///
/// Store misses and loader not-found are not errors: they are represented as
/// absence (`None`) by the resolver. Everything here aborts the enclosing
/// build or transaction construction.
#[derive(Clone, Copy, Debug, PartialEq, Eq, Structural)]
pub enum CoreError {
    /// Malformed or dialect-incompatible address text.
    InvalidAddress,
    /// Malformed module bytecode; fatal for the whole operation.
    DeserializationFailure,
    /// The compiler reported a symbol the resolver could not supply.
    UnresolvedDependency,
    /// More than one candidate matches a call and no disambiguator was given.
    AmbiguousCandidate,
    /// No candidate matches the requested call.
    NoMatchingCandidate,
    /// Explicit and implicit signer conventions were mixed in one call.
    SignerConventionConflict,
    /// A dialect rewrite produced inconsistent lengths or an address that
    /// does not fit the target encoding; always fatal.
    EncodingMismatch,
    /// A bytecode file handed to the packager whose name does not carry
    /// the `.mv` suffix; the file cannot be a compiled module.
    UnexpectedFileName,
}

} // verus!
