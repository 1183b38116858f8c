//! A small on-disk artifact cache: binary payloads are stored under
//! caller-supplied filenames inside one cache directory, and cross the
//! host boundary as text through a padded base64 transcoding whose
//! round-trip behaviour is proved.
//!
//! The library holds the pure core: the transcoder, the path resolution
//! of cache entries, and the decisions of the store and locate
//! operations. The surrounding application performs the filesystem
//! reads and writes and hands their outcomes back to the library.

pub mod cache;
pub mod codec;
pub mod errors;
