//! Build and deployment core for a stack-based smart-contract bytecode VM.
//!
//! The library resolves module dependencies against a chain or a cache,
//! packs compiled modules into a deterministic, dependency-ordered package,
//! translates addresses and module blobs between chain dialects, and turns a
//! parsed call expression into an executable transaction payload.
#![verifier::loop_isolation(false)]

pub mod address;
pub mod bridge;
pub mod bundle;
pub mod clean;
pub mod codec;
pub mod dialect;
pub mod encode;
pub mod error;
pub mod module;
pub mod proto;
pub mod resolver;
pub mod tx;
