//! A dependency-injection container whose wiring graph is validated and
//! frozen before any instance is constructed: if a required dependency
//! is missing or ambiguous anywhere in the transitive graph, assembling
//! the resolution plan fails with a diagnostic naming the type and the
//! chain of requests that led to it, and no provider ever runs.
//!
//! Types are named by identifiers, and the constructed instances record
//! the type they belong to, a token stamped at construction, and the
//! tokens of the dependency values their constructor received — enough
//! for a caller to tell apart fresh, shared, and pre-supplied values.
//!
//! Scopes are immutable once built: providers are registered one at a
//! time into a root scope, and forking layers a child scope, with an
//! empty registry of its own, over everything its parent sees. The
//! nearest scope's provider wins; two providers for one type at the
//! same level are an error, never a silent choice.
//!
//! Each scope carries an identifier — the root zero, every fork a fresh
//! one minted by the runtime that serves the hierarchy — and a
//! singleton's storage cell is named by its owning scope's identifier
//! and the provider's place in that scope's registry, so the cells of
//! sibling forks stay apart while a parent's cell is one and the same
//! from every fork that can see it.

pub mod inject;
pub mod provider;
pub mod module;
pub mod select_provider;
pub mod runtime;
pub mod resolve;
pub mod laws;
