//! Error taxonomy of the upload core. Every failure a caller can see maps to
//! one stable, machine-readable variant, so a client can decide whether to
//! retry the same chunk, restart the session, or abort.

use vstd::prelude::*;

verus! {

/// An error surfaced by the resumable-upload core.
#[derive(Clone, Copy, Debug, PartialEq, Eq, Structural)]
pub enum UploadError {
    /// A sidecar already exists for the target path; the session cannot be
    /// created a second time.
    FileAlreadyExists,
    /// No session exists for the target path.
    FileIsNotCreated,
    /// The sidecar exists but does not parse as a chunk map record.
    UploadMetaIsBroken,
    /// The content-length header is absent.
    MissingContentLength,
    /// The declared content length does not match the chunk's logical size.
    InvalidContentLength,
    /// The chunk-index header is absent.
    MissingChunkIndex,
    /// The chunk index does not parse or is out of range.
    InvalidChunkIndex,
    /// The chunk is currently being written by another caller.
    ChunkIsOngoing,
    /// The chunk has already been written successfully.
    ChunkIsCompleted,
    /// The positioned write of the chunk payload failed.
    UploadChunkFailed,
}

} // verus!
