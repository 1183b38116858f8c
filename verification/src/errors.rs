//! The failure taxonomy of the cache.

use vstd::prelude::*;

verus! {

/// Every failure a cache operation can report: a filesystem read,
/// write or directory-creation failure, malformed encoded text, or an
/// absent cache entry. Each variant carries one human-readable message.
#[derive(Debug)]
pub enum CacheError {
    Io(String),
    Decode(String),
    NotFound(String),
}

impl CacheError {
    /// The message carried by this error, whatever its variant.
    pub open spec fn message_view(&self) -> Seq<char> {
        match self {
            CacheError::Io(m) => m@,
            CacheError::Decode(m) => m@,
            CacheError::NotFound(m) => m@,
        }
    }

    /// The human-readable message surfaced to the caller.
    pub fn message(&self) -> (m: String)
        ensures
            m@ == self.message_view(),
    {
        match self {
            CacheError::Io(m) => m.clone(),
            CacheError::Decode(m) => m.clone(),
            CacheError::NotFound(m) => m.clone(),
        }
    }
}

} // verus!
