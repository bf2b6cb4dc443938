use simple_file_store::errors::UploadError;
use simple_file_store::upload::{begin_session, ChunkStatus, ResumableUploadedFileMeta};

#[test]
fn encoding_is_the_documented_record() {
    let meta = begin_session(4, 10, false).unwrap();
    let bytes = meta.to_bytes();
    assert_eq!(
        bytes,
        b"{\"chunkSize\":4,\"fileSize\":10,\"chunks\":{\"0\":0,\"1\":0,\"2\":0}}"
    );
}

#[test]
fn encoding_statuses_as_digits() {
    let mut meta = begin_session(4, 10, false).unwrap();
    meta.set_chunk_status(0, ChunkStatus::Completed);
    meta.set_chunk_status(1, ChunkStatus::Ongoing);
    let bytes = meta.to_bytes();
    assert_eq!(
        bytes,
        b"{\"chunkSize\":4,\"fileSize\":10,\"chunks\":{\"0\":2,\"1\":1,\"2\":0}}"
    );
}

#[test]
fn empty_session_encodes_an_empty_map() {
    let meta = begin_session(4, 0, false).unwrap();
    assert_eq!(meta.to_bytes(), b"{\"chunkSize\":4,\"fileSize\":0,\"chunks\":{}}");
    let back =
        ResumableUploadedFileMeta::from_bytes(b"{\"chunkSize\":4,\"fileSize\":0,\"chunks\":{}}")
            .unwrap();
    assert_eq!(back.chunks_count(), 0);
    assert_eq!(back.chunk_size, 4);
}

#[test]
fn round_trip_reproduces_the_record() {
    let mut meta = begin_session(8, 21, false).unwrap();
    meta.set_chunk_status(2, ChunkStatus::Ongoing);
    let bytes = meta.to_bytes();
    let back = ResumableUploadedFileMeta::from_bytes(&bytes).unwrap();
    assert_eq!(back.chunk_size, meta.chunk_size);
    assert_eq!(back.file_size, meta.file_size);
    assert_eq!(back.chunks_count(), meta.chunks_count());
    for i in 0..meta.chunks_count() {
        assert_eq!(back.chunk_status(i).unwrap(), meta.chunk_status(i).unwrap());
    }
    assert_eq!(back.to_bytes(), bytes);
}

#[test]
fn decoding_accepts_a_written_record() {
    let b = b"{\"chunkSize\":4,\"fileSize\":10,\"chunks\":{\"0\":2,\"1\":0,\"2\":1}}";
    let meta = ResumableUploadedFileMeta::from_bytes(b).unwrap();
    assert_eq!(meta.chunk_size, 4);
    assert_eq!(meta.file_size, 10);
    assert_eq!(meta.chunks_count(), 3);
    assert_eq!(meta.chunk_status(0).unwrap(), ChunkStatus::Completed);
    assert_eq!(meta.chunk_status(1).unwrap(), ChunkStatus::NotStarted);
    assert_eq!(meta.chunk_status(2).unwrap(), ChunkStatus::Ongoing);
}

#[test]
fn corrupt_sidecars_are_reported_not_regenerated() {
    let broken: &[&[u8]] = &[
        b"",
        b"garbage",
        b"{}",
        b"{\"chunkSize\":4,\"fileSize\":10,\"chunks\":{\"0\":0,\"1\":0}}", // too few chunks
        b"{\"chunkSize\":4,\"fileSize\":10,\"chunks\":{\"0\":0,\"1\":0,\"2\":0,\"3\":0}}", // too many
        b"{\"chunkSize\":04,\"fileSize\":10,\"chunks\":{\"0\":0,\"1\":0,\"2\":0}}", // leading zero
        b"{\"chunkSize\":0,\"fileSize\":10,\"chunks\":{}}",               // zero chunk size
        b"{\"chunkSize\":4,\"fileSize\":10,\"chunks\":{\"1\":0,\"0\":0,\"2\":0}}", // out of order
        b"{\"chunkSize\":4,\"fileSize\":10,\"chunks\":{\"0\":0,\"1\":0,\"2\":3}}", // bad status
        b"{\"chunkSize\":4,\"fileSize\":10,\"chunks\":{\"0\":0,\"1\":0,\"2\":0}} ", // trailing byte
        b"{ \"chunkSize\":4,\"fileSize\":10,\"chunks\":{\"0\":0,\"1\":0,\"2\":0}}", // whitespace
        b"{\"fileSize\":10,\"chunkSize\":4,\"chunks\":{\"0\":0,\"1\":0,\"2\":0}}", // field order
    ];
    for b in broken {
        assert_eq!(
            ResumableUploadedFileMeta::from_bytes(b).unwrap_err(),
            UploadError::UploadMetaIsBroken,
            "accepted: {:?}",
            String::from_utf8_lossy(b)
        );
    }
}

#[test]
fn large_values_round_trip() {
    let meta = begin_session(usize::MAX, u64::MAX, false).unwrap();
    assert_eq!(meta.chunks_count(), 1);
    let bytes = meta.to_bytes();
    let back = ResumableUploadedFileMeta::from_bytes(&bytes).unwrap();
    assert_eq!(back.chunk_size, usize::MAX);
    assert_eq!(back.file_size, u64::MAX);
}
