//! The resumable-upload core: per-chunk status, the chunk map with its sizes,
//! and the session lifecycle decisions.
//!
//! The durable state of a session lives in two files managed by the caller:
//! the sidecar metadata file (encoded and decoded by [`crate::codec`]) and the
//! preallocated upload file. This module holds the in-memory value of the
//! sidecar record and every decision the lifecycle makes about it; the caller
//! performs the filesystem work and feeds results back in as plain values.

use vstd::arithmetic::div_mod::lemma_fundamental_div_mod;
use vstd::prelude::*;
use vstd::string::StringExecFns;

use crate::codec::{
    all_digits, dec_value, encode_parts, is_canonical_encoding, is_digit, lemma_dec_value_extend,
    lemma_dec_value_nonneg, parse_parts, spec_encode_parts,
};
use crate::errors::UploadError;

verus! {

/// The status of one chunk of an upload.
///
/// Legal transitions: `NotStarted -> Ongoing` (a write begins),
/// `Ongoing -> Completed` (the write succeeded), and
/// `Ongoing -> NotStarted` (the write failed; the chunk is retriable).
#[derive(Clone, Copy, Debug, PartialEq, Eq, Structural)]
pub enum ChunkStatus {
    NotStarted,
    Ongoing,
    Completed,
}

impl ChunkStatus {
    pub fn is_not_started(&self) -> (r: bool)
        ensures
            r == (*self == ChunkStatus::NotStarted),
    {
        matches!(self, ChunkStatus::NotStarted)
    }

    pub fn is_ongoing(&self) -> (r: bool)
        ensures
            r == (*self == ChunkStatus::Ongoing),
    {
        matches!(self, ChunkStatus::Ongoing)
    }

    pub fn is_completed(&self) -> (r: bool)
        ensures
            r == (*self == ChunkStatus::Completed),
    {
        matches!(self, ChunkStatus::Completed)
    }
}

/// The number of chunks of a file of `file_size` bytes cut into pieces of
/// `chunk_size` bytes: the division rounded up.
pub open spec fn spec_chunk_count(chunk_size: int, file_size: int) -> int
    recommends
        chunk_size >= 1,
{
    if file_size % chunk_size == 0 {
        file_size / chunk_size
    } else {
        file_size / chunk_size + 1
    }
}

/// Bounds of the rounded-up chunk count: the chunks cover the whole file, and
/// every chunk but possibly the last is full.
pub proof fn lemma_chunk_count_bounds(chunk_size: int, file_size: int)
    requires
        chunk_size >= 1,
        file_size >= 0,
    ensures
        spec_chunk_count(chunk_size, file_size) >= 0,
        spec_chunk_count(chunk_size, file_size) * chunk_size >= file_size,
        file_size == 0 ==> spec_chunk_count(chunk_size, file_size) == 0,
        file_size > 0 ==> spec_chunk_count(chunk_size, file_size) >= 1,
        spec_chunk_count(chunk_size, file_size) >= 1 ==> (spec_chunk_count(chunk_size, file_size)
            - 1) * chunk_size < file_size,
{
    lemma_fundamental_div_mod(file_size, chunk_size);
    let q = file_size / chunk_size;
    let r = file_size % chunk_size;
    assert(file_size == chunk_size * q + r);
    assert(q * chunk_size == chunk_size * q) by (nonlinear_arith);
    assert((q + 1) * chunk_size == chunk_size * q + chunk_size) by (nonlinear_arith);
    assert((q - 1) * chunk_size == chunk_size * q - chunk_size) by (nonlinear_arith);
    if q < 0 {
        assert(chunk_size * q <= -chunk_size) by (nonlinear_arith)
            requires
                chunk_size >= 1,
                q <= -1,
        ;
    }
    if q == 0 {
        assert(chunk_size * q == 0) by (nonlinear_arith)
            requires
                q == 0,
        ;
    }
}

/// Well-formedness of a sidecar record, over its plain components: the chunk
/// size is positive and there is exactly one status per chunk of the declared
/// file size.
pub open spec fn spec_wf_parts(chunk_size: int, file_size: int, chunks: Seq<ChunkStatus>) -> bool {
    &&& chunk_size >= 1
    &&& chunks.len() == spec_chunk_count(chunk_size, file_size)
    &&& chunks.len() <= usize::MAX
}

/// The logical size of chunk `i` of `n`: `chunk_size` for every chunk but
/// the last, and the remainder of the file for the last.
pub open spec fn spec_chunk_size_at(chunk_size: int, file_size: int, n: int, i: int) -> int {
    if i + 1 == n {
        file_size - i * chunk_size
    } else {
        chunk_size
    }
}

/// The logical size of chunk `i` of the chunk map `chunks`.
pub open spec fn spec_chunk_len(chunk_size: int, file_size: int, chunks: Seq<ChunkStatus>, i: int) -> int {
    spec_chunk_size_at(chunk_size, file_size, chunks.len() as int, i)
}

/// The outcome the lifecycle owes a write-chunk request against the chunk map
/// `chunks`: the declared length must equal the chunk's logical size, the
/// index must be in range, and the chunk must not already be ongoing or
/// completed.
pub open spec fn spec_check_chunk_request(
    chunk_size: int,
    file_size: int,
    chunks: Seq<ChunkStatus>,
    i: int,
    content_length: int,
) -> Result<(), UploadError> {
    if content_length != spec_chunk_len(chunk_size, file_size, chunks, i) {
        Err(UploadError::InvalidContentLength)
    } else if !(0 <= i < chunks.len()) {
        Err(UploadError::InvalidChunkIndex)
    } else if chunks[i] == ChunkStatus::Ongoing {
        Err(UploadError::ChunkIsOngoing)
    } else if chunks[i] == ChunkStatus::Completed {
        Err(UploadError::ChunkIsCompleted)
    } else {
        Ok(())
    }
}

/// Whether every chunk of `chunks` is `Completed`.
pub open spec fn spec_all_completed(chunks: Seq<ChunkStatus>) -> bool {
    forall|i: int| 0 <= i < chunks.len() ==> chunks[i] == ChunkStatus::Completed
}

/// The chunk map of one resumable upload session, together with the sizes
/// fixed at its creation. This is the in-memory value of the sidecar record.
///
/// The map holds exactly `ceil(file_size / chunk_size)` entries, one per
/// chunk index starting at zero; entries are never added or removed after
/// creation, only their status changes.
#[derive(Debug)]
pub struct ResumableUploadedFileMeta {
    /// Size in bytes of every chunk but possibly the last, fixed at creation.
    pub chunk_size: usize,
    /// Declared total size in bytes of the upload, fixed at creation.
    pub file_size: u64,
    /// Status of each chunk, indexed by chunk index.
    pub chunks: Vec<ChunkStatus>,
}

impl ResumableUploadedFileMeta {
    /// Well-formedness: the chunk size is positive and the map holds exactly
    /// one entry per chunk of the declared file size.
    pub open spec fn wf(self) -> bool {
        spec_wf_parts(self.chunk_size as int, self.file_size as int, self.chunks@)
    }

    /// Create the initial chunk map for a new session: one entry per chunk,
    /// every chunk `NotStarted`.
    pub fn new(chunk_size: usize, file_size: u64) -> (r: Self)
        requires
            chunk_size >= 1,
            spec_chunk_count(chunk_size as int, file_size as int) <= usize::MAX,
        ensures
            r.wf(),
            r.chunk_size == chunk_size,
            r.file_size == file_size,
            r.chunks@.len() == spec_chunk_count(chunk_size as int, file_size as int),
            forall|i: int|
                0 <= i < r.chunks@.len() ==> r.chunks@[i] == ChunkStatus::NotStarted,
    {
        proof {
            lemma_chunk_count_bounds(chunk_size as int, file_size as int);
        }
        let cs = chunk_size as u64;
        let count = file_size / cs + if file_size % cs != 0 {
            1
        } else {
            0
        };
        let count = count as usize;
        let mut chunks: Vec<ChunkStatus> = Vec::new();
        while chunks.len() < count
            invariant
                chunks@.len() <= count,
                forall|i: int| 0 <= i < chunks@.len() ==> chunks@[i] == ChunkStatus::NotStarted,
            decreases count - chunks@.len(),
        {
            chunks.push(ChunkStatus::NotStarted);
        }
        ResumableUploadedFileMeta { chunk_size, file_size, chunks }
    }

    /// The number of chunks of the session.
    pub fn chunks_count(&self) -> (r: usize)
        ensures
            r == self.chunks@.len(),
    {
        self.chunks.len()
    }

    /// Look the status of chunk `index` up; an out-of-range index is an
    /// unknown chunk.
    pub fn chunk_status(&self, index: usize) -> (r: Result<ChunkStatus, UploadError>)
        ensures
            index < self.chunks@.len() ==> r == Ok::<ChunkStatus, UploadError>(
                self.chunks@[index as int],
            ),
            index >= self.chunks@.len() ==> r == Err::<ChunkStatus, UploadError>(
                UploadError::InvalidChunkIndex,
            ),
    {
        if index < self.chunks.len() {
            Ok(self.chunks[index])
        } else {
            Err(UploadError::InvalidChunkIndex)
        }
    }

    /// Set the status of chunk `index`; every other entry and both sizes are
    /// untouched.
    pub fn set_chunk_status(&mut self, index: usize, status: ChunkStatus)
        requires
            index < old(self).chunks@.len(),
        ensures
            final(self).chunk_size == old(self).chunk_size,
            final(self).file_size == old(self).file_size,
            final(self).chunks@ == old(self).chunks@.update(index as int, status),
    {
        self.chunks.set(index, status);
    }

    /// Whether every chunk has been written successfully: the logical AND
    /// over all statuses.
    pub fn all_chunks_completed(&self) -> (r: bool)
        ensures
            r == spec_all_completed(self.chunks@),
    {
        let mut i: usize = 0;
        while i < self.chunks.len()
            invariant
                i <= self.chunks@.len(),
                forall|j: int| 0 <= j < i ==> self.chunks@[j] == ChunkStatus::Completed,
            decreases self.chunks@.len() - i,
        {
            if !matches!(self.chunks[i], ChunkStatus::Completed) {
                return false;
            }
            i += 1;
        }
        true
    }

    /// Validate a write-chunk request: the declared content length must equal
    /// the chunk's logical size (`chunk_size`, or the remainder of the file
    /// for the last chunk), the index must name an existing chunk, and the
    /// chunk must still be `NotStarted`.
    pub fn check_chunk_request(&self, chunk_index: usize, content_length: usize) -> (r: Result<
        (),
        UploadError,
    >)
        requires
            self.wf(),
        ensures
            r == spec_check_chunk_request(
                self.chunk_size as int,
                self.file_size as int,
                self.chunks@,
                chunk_index as int,
                content_length as int,
            ),
    {
        proof {
            lemma_chunk_count_bounds(self.chunk_size as int, self.file_size as int);
        }
        let n = self.chunks.len();
        let is_last = chunk_index < n && chunk_index == n - 1;
        let length_ok = if is_last {
            let last_len = self.file_size - (chunk_index as u64) * (self.chunk_size as u64);
            content_length as u64 == last_len
        } else {
            content_length == self.chunk_size
        };
        if !length_ok {
            Err(UploadError::InvalidContentLength)
        } else if chunk_index >= n {
            Err(UploadError::InvalidChunkIndex)
        } else if matches!(self.chunks[chunk_index], ChunkStatus::Ongoing) {
            Err(UploadError::ChunkIsOngoing)
        } else if matches!(self.chunks[chunk_index], ChunkStatus::Completed) {
            Err(UploadError::ChunkIsCompleted)
        } else {
            Ok(())
        }
    }

    /// The absolute byte offset at which chunk `index` starts in the upload
    /// file: non-overlapping ranges by construction, so concurrent writes of
    /// different chunks never interfere.
    pub fn chunk_offset(&self, index: usize) -> (r: u64)
        requires
            self.wf(),
            index < self.chunks@.len(),
        ensures
            r == index * self.chunk_size,
            r < self.file_size,
    {
        proof {
            lemma_chunk_count_bounds(self.chunk_size as int, self.file_size as int);
            lemma_mul_le_mono(
                index as int,
                self.chunks@.len() - 1,
                self.chunk_size as int,
            );
        }
        (index as u64) * (self.chunk_size as u64)
    }
}

impl ResumableUploadedFileMeta {
    /// The sidecar path for the given target path: the same name with the
    /// `.resumable-meta` suffix, so it lives beside the target and never
    /// collides with the upload file's derived name.
    pub fn path(file_path: &str) -> (r: String)
        ensures
            r@ == file_path@ + ".resumable-meta"@,
    {
        file_path.to_owned().concat(".resumable-meta")
    }

    /// Encode this record into the canonical sidecar bytes.
    pub fn to_bytes(&self) -> (r: Vec<u8>)
        ensures
            r@ == spec_encode_parts(self.chunk_size as int, self.file_size as int, self.chunks@),
    {
        encode_parts(self.chunk_size, self.file_size, &self.chunks)
    }

    /// Decode a sidecar record from its bytes, or report it corrupt.
    ///
    /// Decoding is sound and complete for the canonical encoding: a success
    /// returns the one well-formed record whose encoding is the input, and a
    /// failure means no well-formed record encodes to the input.
    pub fn from_bytes(b: &[u8]) -> (r: Result<Self, UploadError>)
        ensures
            match r {
                Ok(m) => {
                    &&& m.wf()
                    &&& spec_encode_parts(m.chunk_size as int, m.file_size as int, m.chunks@)
                        == b@
                    &&& forall|cs2: int, fs2: int, c2: Seq<ChunkStatus>|
                        #[trigger] is_canonical_encoding(b@, cs2, fs2, c2) ==> cs2
                            == m.chunk_size as int && fs2 == m.file_size as int && c2 == m.chunks@
                },
                Err(e) => {
                    &&& e == UploadError::UploadMetaIsBroken
                    &&& forall|cs2: int, fs2: int, c2: Seq<ChunkStatus>|
                        !#[trigger] is_canonical_encoding(b@, cs2, fs2, c2)
                },
            },
    {
        match parse_parts(b) {
            Ok((chunk_size, file_size, chunks)) => Ok(
                ResumableUploadedFileMeta { chunk_size, file_size, chunks },
            ),
            Err(e) => Err(e),
        }
    }
}

/// Apply one chunk-status transition to the raw bytes of a sidecar record:
/// the pure step of the locked read-modify-write. The caller re-reads the
/// sidecar under its exclusive lock, hands the fresh bytes here, and writes
/// the result back before releasing the lock.
pub fn update_sidecar_record(b: &[u8], chunk_index: usize, status: ChunkStatus) -> (r: Result<
    Vec<u8>,
    UploadError,
>)
    ensures
        (forall|cs2: int, fs2: int, c2: Seq<ChunkStatus>|
            !#[trigger] is_canonical_encoding(b@, cs2, fs2, c2)) ==> r == Err::<Vec<u8>, _>(
            UploadError::UploadMetaIsBroken,
        ),
        forall|cs2: int, fs2: int, c2: Seq<ChunkStatus>|
            #[trigger] is_canonical_encoding(b@, cs2, fs2, c2) && chunk_index < c2.len() ==> r
                is Ok && r->Ok_0@ == spec_encode_parts(
                cs2,
                fs2,
                c2.update(chunk_index as int, status),
            ),
        forall|cs2: int, fs2: int, c2: Seq<ChunkStatus>|
            #[trigger] is_canonical_encoding(b@, cs2, fs2, c2) && chunk_index >= c2.len() ==> r
                == Err::<Vec<u8>, _>(UploadError::InvalidChunkIndex),
{
    let mut meta = match ResumableUploadedFileMeta::from_bytes(b) {
        Ok(meta) => meta,
        Err(e) => {
            return Err(e);
        },
    };
    let ghost m0 = meta;
    proof {
        assert(is_canonical_encoding(
            b@,
            m0.chunk_size as int,
            m0.file_size as int,
            m0.chunks@,
        ));
    }
    if chunk_index >= meta.chunks.len() {
        return Err(UploadError::InvalidChunkIndex);
    }
    meta.set_chunk_status(chunk_index, status);
    let out = meta.to_bytes();
    proof {
        assert forall|cs2: int, fs2: int, c2: Seq<ChunkStatus>|
            #[trigger] is_canonical_encoding(b@, cs2, fs2, c2) && chunk_index < c2.len() implies
            out@ == spec_encode_parts(cs2, fs2, c2.update(chunk_index as int, status)) by {
            assert(c2 == m0.chunks@);
        }
    }
    Ok(out)
}

/// The decimal digits of a header value, after an optional leading `+`.
pub open spec fn spec_header_digits(s: Seq<u8>) -> Seq<u8> {
    if s.len() > 0 && s[0] == 43 {
        s.skip(1)
    } else {
        s
    }
}

/// The numeric value of a header: an optional `+`, then at least one decimal
/// digit, leading zeros allowed.
pub open spec fn spec_header_value(s: Seq<u8>) -> Option<int> {
    let d = spec_header_digits(s);
    if d.len() >= 1 && all_digits(d) {
        Some(dec_value(d))
    } else {
        None
    }
}

/// Read a decimal header value. `None` when the text is not a number at all;
/// also `None` when its value does not even fit in 64 bits.
#[verifier::loop_isolation(false)]
fn parse_header_u64(s: &[u8]) -> (r: Option<u64>)
    ensures
        match r {
            Some(v) => spec_header_value(s@) == Some(v as int),
            None => spec_header_value(s@) is None || (spec_header_value(s@) matches Some(v) && v
                > u64::MAX),
        },
{
    let len = s.len();
    let start: usize = if len > 0 && s[0] == 43 {
        1
    } else {
        0
    };
    proof {
        assert(spec_header_digits(s@) =~= s@.skip(start as int));
    }
    if start >= len {
        return None;
    }
    let ghost digits = s@.skip(start as int);
    let mut v: u64 = 0;
    let mut k = start;
    while k < len
        invariant
            start <= k <= len,
            all_digits(s@.subrange(start as int, k as int)),
            v == dec_value(s@.subrange(start as int, k as int)),
        decreases len - k,
    {
        let c = s[k];
        if c < 48 || c > 57 {
            proof {
                assert(!all_digits(digits)) by {
                    assert(digits[k - start] == s@[k as int]);
                }
            }
            return None;
        }
        let ghost prefix = s@.subrange(start as int, k as int);
        let ghost prefix1 = s@.subrange(start as int, k as int + 1);
        proof {
            assert(prefix1.drop_last() =~= prefix);
            assert(prefix1.last() == s@[k as int]);
        }
        let step = match v.checked_mul(10) {
            Some(x) => x.checked_add((c - 48) as u64),
            None => None,
        };
        match step {
            Some(x) => {
                v = x;
            },
            None => {
                proof {
                    lemma_dec_value_nonneg(prefix1);
                    assert(dec_value(prefix1) > u64::MAX);
                    if spec_header_value(s@) is Some {
                        let rest = s@.subrange(k as int + 1, len as int);
                        assert(all_digits(rest)) by {
                            assert forall|i: int| 0 <= i < rest.len() implies is_digit(
                                #[trigger] rest[i],
                            ) by {
                                assert(rest[i] == digits[k - start + 1 + i]);
                            }
                        }
                        assert(digits =~= prefix1 + rest);
                        lemma_dec_value_extend(prefix1, rest);
                    }
                }
                return None;
            },
        }
        k += 1;
    }
    proof {
        assert(digits =~= s@.subrange(start as int, len as int));
    }
    Some(v)
}

/// Read the chunk-index header: absent, non-numeric and out-of-range values
/// are each rejected with their own error.
pub fn parse_chunk_index(header: Option<&[u8]>) -> (r: Result<usize, UploadError>)
    ensures
        match header {
            None => r == Err::<usize, _>(UploadError::MissingChunkIndex),
            Some(s) => match spec_header_value(s@) {
                Some(v) => if v <= usize::MAX {
                    r == Ok::<_, UploadError>(v as usize)
                } else {
                    r == Err::<usize, _>(UploadError::InvalidChunkIndex)
                },
                None => r == Err::<usize, _>(UploadError::InvalidChunkIndex),
            },
        },
{
    match header {
        None => Err(UploadError::MissingChunkIndex),
        Some(s) => match parse_header_u64(s) {
            Some(v) => if v <= usize::MAX as u64 {
                Ok(v as usize)
            } else {
                Err(UploadError::InvalidChunkIndex)
            },
            None => Err(UploadError::InvalidChunkIndex),
        },
    }
}

/// Read the content-length header: absent, non-numeric and out-of-range
/// values are each rejected with their own error.
pub fn parse_content_length(header: Option<&[u8]>) -> (r: Result<usize, UploadError>)
    ensures
        match header {
            None => r == Err::<usize, _>(UploadError::MissingContentLength),
            Some(s) => match spec_header_value(s@) {
                Some(v) => if v <= usize::MAX {
                    r == Ok::<_, UploadError>(v as usize)
                } else {
                    r == Err::<usize, _>(UploadError::InvalidContentLength)
                },
                None => r == Err::<usize, _>(UploadError::InvalidContentLength),
            },
        },
{
    match header {
        None => Err(UploadError::MissingContentLength),
        Some(s) => match parse_header_u64(s) {
            Some(v) => if v <= usize::MAX as u64 {
                Ok(v as usize)
            } else {
                Err(UploadError::InvalidContentLength)
            },
            None => Err(UploadError::InvalidContentLength),
        },
    }
}

/// Inspect a session: the current chunk map, from the sidecar bytes the
/// caller has read, or `None` when no sidecar exists for the path. Corrupt
/// metadata is surfaced, never discarded or regenerated: regenerating would
/// lose which chunks were already durably written.
pub fn inspect_session(sidecar: Option<&[u8]>) -> (r: Result<
    Option<ResumableUploadedFileMeta>,
    UploadError,
>)
    ensures
        sidecar is None ==> r == Ok::<Option<ResumableUploadedFileMeta>, UploadError>(None),
        sidecar matches Some(b) ==> match r {
            Ok(Some(m)) => m.wf() && spec_encode_parts(
                m.chunk_size as int,
                m.file_size as int,
                m.chunks@,
            ) == b@,
            Ok(None) => false,
            Err(e) => e == UploadError::UploadMetaIsBroken && (forall|
                cs2: int,
                fs2: int,
                c2: Seq<ChunkStatus>,
            |
                !#[trigger] is_canonical_encoding(b@, cs2, fs2, c2)),
        },
{
    match sidecar {
        None => Ok(None),
        Some(b) => match ResumableUploadedFileMeta::from_bytes(b) {
            Ok(m) => Ok(Some(m)),
            Err(e) => Err(e),
        },
    }
}

/// The in-progress upload file path for the given target path: the same
/// name with the `.resumable-upload` suffix. The file is renamed to the
/// target path when the last chunk completes.
pub fn upload_file_path(file_path: &str) -> (r: String)
    ensures
        r@ == file_path@ + ".resumable-upload"@,
{
    file_path.to_owned().concat(".resumable-upload")
}

/// Begin a resumable upload session: the decision the lifecycle makes given
/// whether a sidecar already exists for the target path. On success the
/// caller persists the returned record and preallocates the upload file; if
/// preallocation fails it removes the sidecar again before surfacing the
/// error, so no partially-initialized session is left behind.
pub fn begin_session(chunk_size: usize, file_size: u64, sidecar_exists: bool) -> (r: Result<
    ResumableUploadedFileMeta,
    UploadError,
>)
    requires
        chunk_size >= 1,
        spec_chunk_count(chunk_size as int, file_size as int) <= usize::MAX,
    ensures
        sidecar_exists ==> r == Err::<ResumableUploadedFileMeta, _>(UploadError::FileAlreadyExists),
        !sidecar_exists ==> r is Ok && ({
            let m = r->Ok_0;
            &&& m.wf()
            &&& m.chunk_size == chunk_size
            &&& m.file_size == file_size
            &&& m.chunks@.len() == spec_chunk_count(chunk_size as int, file_size as int)
            &&& forall|i: int| 0 <= i < m.chunks@.len() ==> m.chunks@[i] == ChunkStatus::NotStarted
        }),
{
    if sidecar_exists {
        Err(UploadError::FileAlreadyExists)
    } else {
        Ok(ResumableUploadedFileMeta::new(chunk_size, file_size))
    }
}

/// A validated write-chunk request: which chunk to write, how many bytes the
/// caller declared, and the absolute offset of the chunk in the upload file.
#[derive(Clone, Copy, Debug, PartialEq, Eq, Structural)]
pub struct ChunkWritePlan {
    /// The index of the chunk to write.
    pub chunk_index: usize,
    /// The declared length of the payload, already checked against the
    /// chunk's logical size.
    pub content_length: usize,
    /// The byte offset `chunk_index * chunk_size` at which the positioned
    /// write starts.
    pub offset: u64,
}

/// The outcome owed to a write-chunk request before any byte is written:
/// the chunk-index header, then the content-length header, then the session's
/// existence, then the request against the chunk map.
pub open spec fn spec_prepare_outcome(
    meta: Option<ResumableUploadedFileMeta>,
    index_header: Option<Seq<u8>>,
    length_header: Option<Seq<u8>>,
) -> Result<(int, int), UploadError> {
    match index_header {
        None => Err(UploadError::MissingChunkIndex),
        Some(si) => match spec_header_value(si) {
            None => Err(UploadError::InvalidChunkIndex),
            Some(i) => if i > usize::MAX {
                Err(UploadError::InvalidChunkIndex)
            } else {
                match length_header {
                    None => Err(UploadError::MissingContentLength),
                    Some(sl) => match spec_header_value(sl) {
                        None => Err(UploadError::InvalidContentLength),
                        Some(l) => if l > usize::MAX {
                            Err(UploadError::InvalidContentLength)
                        } else {
                            match meta {
                                None => Err(UploadError::FileIsNotCreated),
                                Some(m) => match spec_check_chunk_request(
                                    m.chunk_size as int,
                                    m.file_size as int,
                                    m.chunks@,
                                    i,
                                    l,
                                ) {
                                    Ok(u) => Ok((i, l)),
                                    Err(e) => Err(e),
                                },
                            }
                        },
                    },
                }
            },
        },
    }
}

/// Validate a write-chunk request from its raw inputs: the two headers as
/// the caller received them, and the session's chunk map if its sidecar
/// exists. On success the returned plan names the admitted chunk and the
/// offset of its byte range; the caller then marks the chunk `Ongoing`,
/// performs the positioned write, and settles the status by the write's
/// outcome.
pub fn prepare_chunk_write(
    meta: Option<&ResumableUploadedFileMeta>,
    index_header: Option<&[u8]>,
    length_header: Option<&[u8]>,
) -> (r: Result<ChunkWritePlan, UploadError>)
    requires
        meta matches Some(m) ==> m.wf(),
    ensures
        ({
            let o = spec_prepare_outcome(
                match meta {
                    Some(m) => Some(*m),
                    None => None,
                },
                match index_header {
                    Some(s) => Some(s@),
                    None => None,
                },
                match length_header {
                    Some(s) => Some(s@),
                    None => None,
                },
            );
            match r {
                Ok(plan) => {
                    &&& o == Ok::<(int, int), UploadError>(
                        (plan.chunk_index as int, plan.content_length as int),
                    )
                    &&& meta matches Some(m) && plan.offset == plan.chunk_index as int
                        * m.chunk_size as int && plan.offset < m.file_size
                },
                Err(e) => o == Err::<(int, int), UploadError>(e),
            }
        }),
{
    proof {
        match index_header {
            Some(s) => {
                if spec_header_value(s@) is Some {
                    lemma_dec_value_nonneg(spec_header_digits(s@));
                }
            },
            None => {},
        }
        match length_header {
            Some(s) => {
                if spec_header_value(s@) is Some {
                    lemma_dec_value_nonneg(spec_header_digits(s@));
                }
            },
            None => {},
        }
    }
    let chunk_index = match parse_chunk_index(index_header) {
        Ok(i) => i,
        Err(e) => {
            return Err(e);
        },
    };
    let content_length = match parse_content_length(length_header) {
        Ok(l) => l,
        Err(e) => {
            return Err(e);
        },
    };
    let m = match meta {
        Some(m) => m,
        None => {
            return Err(UploadError::FileIsNotCreated);
        },
    };
    match m.check_chunk_request(chunk_index, content_length) {
        Ok(()) => {
            let offset = m.chunk_offset(chunk_index);
            Ok(ChunkWritePlan { chunk_index, content_length, offset })
        },
        Err(e) => Err(e),
    }
}

/// The status a chunk settles to after its positioned write: `Completed` on
/// success; `NotStarted` on failure, so the chunk is retriable and never
/// stuck `Ongoing`.
pub fn chunk_status_after_write(write_succeeded: bool) -> (r: ChunkStatus)
    ensures
        write_succeeded ==> r == ChunkStatus::Completed,
        !write_succeeded ==> r == ChunkStatus::NotStarted,
{
    if write_succeeded {
        ChunkStatus::Completed
    } else {
        ChunkStatus::NotStarted
    }
}

/// Law: marking an admitted chunk `Ongoing` is the commit point that
/// serializes concurrent writers. Of two requests for the same chunk, the
/// one that reads the map after the other's transition is rejected as
/// ongoing (or as completed once the write has finished) — never admitted a
/// second time.
pub proof fn lemma_concurrent_write_rejected(
    chunk_size: int,
    file_size: int,
    chunks: Seq<ChunkStatus>,
    i: int,
    l: int,
)
    requires
        spec_wf_parts(chunk_size, file_size, chunks),
        spec_check_chunk_request(chunk_size, file_size, chunks, i, l) == Ok::<(), UploadError>(()),
    ensures
        spec_check_chunk_request(
            chunk_size,
            file_size,
            chunks.update(i, ChunkStatus::Ongoing),
            i,
            l,
        ) == Err::<(), UploadError>(UploadError::ChunkIsOngoing),
        spec_check_chunk_request(
            chunk_size,
            file_size,
            chunks.update(i, ChunkStatus::Completed),
            i,
            l,
        ) == Err::<(), UploadError>(UploadError::ChunkIsCompleted),
{
    assert(0 <= i < chunks.len());
}

/// Law: a failed chunk write reverts exactly its own entry. Marking chunk
/// `i` `Ongoing` and then back to `NotStarted` leaves every entry as it was,
/// and a retry of the same request is admitted again.
pub proof fn lemma_failed_write_leaves_map_untouched(
    chunk_size: int,
    file_size: int,
    chunks: Seq<ChunkStatus>,
    i: int,
    l: int,
)
    requires
        spec_wf_parts(chunk_size, file_size, chunks),
        spec_check_chunk_request(chunk_size, file_size, chunks, i, l) == Ok::<(), UploadError>(()),
    ensures
        chunks.update(i, ChunkStatus::Ongoing).update(i, ChunkStatus::NotStarted) == chunks,
        forall|j: int|
            0 <= j < chunks.len() && j != i ==> chunks.update(i, ChunkStatus::Ongoing)[j]
                == chunks[j],
        spec_check_chunk_request(
            chunk_size,
            file_size,
            chunks.update(i, ChunkStatus::Ongoing).update(i, ChunkStatus::NotStarted),
            i,
            l,
        ) == Ok::<(), UploadError>(()),
{
    assert(0 <= i < chunks.len());
    assert(chunks.update(i, ChunkStatus::Ongoing).update(i, ChunkStatus::NotStarted) =~= chunks);
}

/// The response of one write-chunk call: whether this write succeeded, and
/// whether it was the one that completed the whole upload.
pub struct ResumableUploadFileResponse {
    pub success: bool,
    pub all_chunks_completed: bool,
}

impl ResumableUploadFileResponse {
    pub fn new(success: bool, all_chunks_completed: bool) -> (r: Self)
        ensures
            r.success == success,
            r.all_chunks_completed == all_chunks_completed,
    {
        Self { success, all_chunks_completed }
    }
}

/// The body of a create-session request: the declared total size in bytes.
pub struct CreateResumableUploadFileRequest {
    pub size: u64,
}

/// Multiplying a smaller factor by the same positive factor gives no more.
proof fn lemma_mul_le_mono(a: int, b: int, c: int)
    requires
        a <= b,
        c >= 0,
    ensures
        a * c <= b * c,
{
    assert(a * c <= b * c) by (nonlinear_arith)
        requires
            a <= b,
            c >= 0,
    ;
}

} // verus!
