//! The cache directory: path resolution of entries and the pure parts
//! of the store and locate operations.
//!
//! The filesystem itself stays with the surrounding application: it
//! creates the cache directory, writes the planned bytes, checks
//! whether a candidate path exists, and hands each outcome back here.

use vstd::prelude::*;
use vstd::string::StringExecFns;
use crate::codec;
use crate::errors::CacheError;

verus! {

/// The one directory under which every cached file lives. The path is
/// fixed at construction, before any cache operation runs, and is
/// never relocated afterwards.
pub struct CacheRoot {
    path: String,
}

/// What a store operation writes: the decoded payload bytes and the
/// resolved target path inside the cache root.
pub struct StorePlan {
    pub path: String,
    pub bytes: Vec<u8>,
}

impl View for CacheRoot {
    type V = Seq<char>;

    closed spec fn view(&self) -> Seq<char> {
        self.path@
    }
}

/// The candidate path of a cache entry: the filename joined verbatim
/// to a root path with one separator.
pub open spec fn entry_path_of(root: Seq<char>, filename: Seq<char>) -> Seq<char> {
    root + seq!['/'] + filename
}

impl CacheRoot {
    /// A cache root at the given directory path.
    pub fn new(path: String) -> (root: CacheRoot)
        ensures
            root@ == path@,
    {
        CacheRoot { path }
    }

    /// The directory path the root was made with.
    pub fn path(&self) -> (p: String)
        ensures
            p@ == self@,
    {
        self.path.clone()
    }

    /// Resolves a caller-supplied filename to its candidate path under
    /// this root. The filename is used verbatim as the last path
    /// segment; nothing is checked on disk here.
    pub fn entry_path(&self, filename: &str) -> (p: String)
        ensures
            p@ == entry_path_of(self@, filename@),
    {
        let mut p = self.path.clone();
        p.append("/");
        p.append(filename);
        proof {
            reveal_strlit("/");
            assert(p@ =~= entry_path_of(self@, filename@));
        }
        p
    }

    /// The pure part of the store operation: decode the payload and
    /// resolve the target path. Decoding comes first, so a malformed
    /// payload fails before anything would touch the disk; the caller
    /// then creates the cache directory if it is absent and writes
    /// `bytes` to `path`, replacing any file already there, and echoes
    /// the filename back on success.
    pub fn prepare_store(&self, filename: &str, payload: &str) -> (r: Result<
        StorePlan,
        CacheError,
    >)
        ensures
            match r {
                Ok(plan) => {
                    &&& codec::decoded(payload@) == Some(plan.bytes@)
                    &&& plan.path@ == entry_path_of(self@, filename@)
                },
                Err(e) => codec::decoded(payload@) is None && e matches CacheError::Decode(_),
            },
    {
        match codec::decode(payload) {
            Ok(bytes) => Ok(StorePlan { path: self.entry_path(filename), bytes }),
            Err(e) => Err(e),
        }
    }

    /// The locate decision: `present` is the filesystem's answer on
    /// whether the candidate path exists at call time. A present entry
    /// resolves to its path; an absent one fails with `NotFound`
    /// naming the filename.
    pub fn locate(&self, filename: &str, present: bool) -> (r: Result<String, CacheError>)
        ensures
            match r {
                Ok(p) => present && p@ == entry_path_of(self@, filename@),
                Err(e) => {
                    &&& !present
                    &&& e matches CacheError::NotFound(m)
                        && m@ == "Image not found in cache: "@ + filename@
                },
            },
    {
        if present {
            Ok(self.entry_path(filename))
        } else {
            let mut m = "Image not found in cache: ".to_owned();
            m.append(filename);
            Err(CacheError::NotFound(m))
        }
    }
}

} // verus!
