//! A verified method- and trait-resolution engine.
//!
//! Given a (possibly partially unknown) receiver type and an optional member
//! name, the library enumerates the callable items — inherent methods, trait
//! methods, associated constants — that a call site could resolve to. It
//! reproduces the autoderef/autoref coercion sequence, the inherent-before-
//! trait precedence, and lazy coherence confirmation against a trait oracle.
//!
//! The engine is a pure function over an immutable [`db::World`]: a store that
//! holds the compiled facts about crates, impl blocks, traits, functions and
//! the oracle's verdicts. Types are structural trees ([`ty::Ty`]) indexed by a
//! coarse fingerprint ([`ty::TyFingerprint`]); per-crate catalogs of impls
//! ([`index::CrateImplDefs`]) are merged over transitive dependencies with
//! verified idempotence and order-independence.
//!
//! Around the engine sit the text utilities its tests live on — cursor-marker
//! extraction and wildcard line matching ([`text`]), approximate JSON
//! comparison ([`json`]) — and the editor-facing decision kernels for inlay
//! hints, the turbofish assist and macro completion ([`ide`]).

pub mod autoderef;
pub mod db;
pub mod ide;
pub mod ids;
pub mod index;
pub mod json;
pub mod outside;
pub mod search;
pub mod text;
pub mod ty;
pub mod unify;
