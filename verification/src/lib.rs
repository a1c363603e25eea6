//! Tracks star counts for a user-curated list of source-hosting repositories.
//!
//! The library holds the logic of the tracker: repository identities and the
//! two hosting providers, the persisted settings collection with its
//! uniqueness and favourite invariants, the codec that writes and reads the
//! persisted form, and the aggregation of one fetch outcome per entry.
//! Network and file access stay outside; the library states what must hold
//! of every value that crosses that boundary.

use vstd::prelude::*;

pub mod repo;
pub mod settings;
pub mod store;
pub mod fetch;
pub mod fetcher;
pub mod codec;
pub mod codec_laws;

verus! {

use crate::repo::GitProvider;

/// Why an operation of the library failed.
#[derive(Clone, Debug)]
pub enum Error {
    /// An identity was routed to the wrong provider: the provider found
    /// first, the provider expected second.
    ProviderMismatch(GitProvider, GitProvider),
    /// The remote API or its transport failed; the text says how.
    UpstreamApiError(String),
    /// Persisted data does not parse.
    SerializationError,
    /// The underlying storage failed to read or write; the text says how.
    IoError(String),
}

} // verus!
