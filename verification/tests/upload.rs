use simple_file_store::errors::UploadError;
use simple_file_store::upload::{
    begin_session, chunk_status_after_write, inspect_session, parse_chunk_index,
    parse_content_length, prepare_chunk_write, update_sidecar_record, upload_file_path,
    ChunkStatus, ResumableUploadFileResponse, ResumableUploadedFileMeta,
};

#[test]
fn begin_produces_ceil_chunks_all_not_started() {
    let meta = begin_session(4, 10, false).unwrap();
    assert_eq!(meta.chunks_count(), 3);
    for i in 0..3 {
        assert_eq!(meta.chunk_status(i).unwrap(), ChunkStatus::NotStarted);
    }
    assert_eq!(meta.chunk_size, 4);
    assert_eq!(meta.file_size, 10);

    let exact = begin_session(4, 8, false).unwrap();
    assert_eq!(exact.chunks_count(), 2);

    let empty = begin_session(4, 0, false).unwrap();
    assert_eq!(empty.chunks_count(), 0);

    let one = begin_session(8, 1, false).unwrap();
    assert_eq!(one.chunks_count(), 1);
}

#[test]
fn status_predicates_name_exactly_one_state() {
    assert!(ChunkStatus::NotStarted.is_not_started());
    assert!(!ChunkStatus::NotStarted.is_ongoing());
    assert!(!ChunkStatus::NotStarted.is_completed());
    assert!(ChunkStatus::Ongoing.is_ongoing());
    assert!(!ChunkStatus::Ongoing.is_not_started());
    assert!(!ChunkStatus::Ongoing.is_completed());
    assert!(ChunkStatus::Completed.is_completed());
    assert!(!ChunkStatus::Completed.is_not_started());
    assert!(!ChunkStatus::Completed.is_ongoing());
}

#[test]
fn begin_rejects_existing_sidecar() {
    // a session already exists for the path: creation fails, nothing changes
    let r = begin_session(4, 10, true);
    assert_eq!(r.unwrap_err(), UploadError::FileAlreadyExists);
}

#[test]
fn content_length_must_match_chunk_size() {
    let meta = begin_session(4, 10, false).unwrap();
    // chunks 0 and 1 are full chunks of four bytes
    assert!(meta.check_chunk_request(0, 4).is_ok());
    assert!(meta.check_chunk_request(1, 4).is_ok());
    assert_eq!(
        meta.check_chunk_request(0, 3).unwrap_err(),
        UploadError::InvalidContentLength
    );
    // the last chunk holds the remaining two bytes, no more and no less
    assert_eq!(
        meta.check_chunk_request(2, 4).unwrap_err(),
        UploadError::InvalidContentLength
    );
    assert_eq!(
        meta.check_chunk_request(2, 3).unwrap_err(),
        UploadError::InvalidContentLength
    );
    assert!(meta.check_chunk_request(2, 2).is_ok());
}

#[test]
fn unknown_chunk_index_is_rejected() {
    let meta = begin_session(4, 10, false).unwrap();
    assert_eq!(
        meta.check_chunk_request(3, 4).unwrap_err(),
        UploadError::InvalidChunkIndex
    );
    assert_eq!(
        meta.chunk_status(3).unwrap_err(),
        UploadError::InvalidChunkIndex
    );
}

#[test]
fn ongoing_and_completed_chunks_reject_writes() {
    let mut meta = begin_session(4, 10, false).unwrap();
    assert!(meta.check_chunk_request(1, 4).is_ok());
    meta.set_chunk_status(1, ChunkStatus::Ongoing);
    assert_eq!(
        meta.check_chunk_request(1, 4).unwrap_err(),
        UploadError::ChunkIsOngoing
    );
    meta.set_chunk_status(1, ChunkStatus::Completed);
    assert_eq!(
        meta.check_chunk_request(1, 4).unwrap_err(),
        UploadError::ChunkIsCompleted
    );
}

#[test]
fn failed_write_reverts_only_its_own_chunk() {
    let mut meta = begin_session(4, 10, false).unwrap();
    meta.set_chunk_status(0, ChunkStatus::Completed);
    // a write of chunk 1 begins and fails
    assert!(meta.check_chunk_request(1, 4).is_ok());
    meta.set_chunk_status(1, ChunkStatus::Ongoing);
    meta.set_chunk_status(1, chunk_status_after_write(false));
    // chunk 1 is retriable, the rest of the map is untouched
    assert_eq!(meta.chunk_status(1).unwrap(), ChunkStatus::NotStarted);
    assert_eq!(meta.chunk_status(0).unwrap(), ChunkStatus::Completed);
    assert_eq!(meta.chunk_status(2).unwrap(), ChunkStatus::NotStarted);
    assert!(meta.check_chunk_request(1, 4).is_ok());
}

#[test]
fn successful_write_completes_chunk() {
    assert_eq!(chunk_status_after_write(true), ChunkStatus::Completed);
    assert_eq!(chunk_status_after_write(false), ChunkStatus::NotStarted);
}

#[test]
fn all_chunks_completed_is_the_and_over_statuses() {
    let mut meta = begin_session(4, 10, false).unwrap();
    assert!(!meta.all_chunks_completed());
    meta.set_chunk_status(0, ChunkStatus::Completed);
    meta.set_chunk_status(2, ChunkStatus::Completed);
    assert!(!meta.all_chunks_completed());
    meta.set_chunk_status(1, ChunkStatus::Completed);
    assert!(meta.all_chunks_completed());

    let empty = begin_session(4, 0, false).unwrap();
    assert!(empty.all_chunks_completed());
}

#[test]
fn chunk_offsets_are_disjoint_ranges() {
    let meta = begin_session(4, 10, false).unwrap();
    assert_eq!(meta.chunk_offset(0), 0);
    assert_eq!(meta.chunk_offset(1), 4);
    assert_eq!(meta.chunk_offset(2), 8);
}

#[test]
fn chunk_index_header_parsing() {
    assert_eq!(
        parse_chunk_index(None).unwrap_err(),
        UploadError::MissingChunkIndex
    );
    assert_eq!(parse_chunk_index(Some(b"0")).unwrap(), 0);
    assert_eq!(parse_chunk_index(Some(b"17")).unwrap(), 17);
    assert_eq!(parse_chunk_index(Some(b"+5")).unwrap(), 5);
    assert_eq!(parse_chunk_index(Some(b"007")).unwrap(), 7);
    assert_eq!(
        parse_chunk_index(Some(b"")).unwrap_err(),
        UploadError::InvalidChunkIndex
    );
    assert_eq!(
        parse_chunk_index(Some(b"abc")).unwrap_err(),
        UploadError::InvalidChunkIndex
    );
    assert_eq!(
        parse_chunk_index(Some(b"12x")).unwrap_err(),
        UploadError::InvalidChunkIndex
    );
    assert_eq!(
        parse_chunk_index(Some(b"-1")).unwrap_err(),
        UploadError::InvalidChunkIndex
    );
    assert_eq!(
        parse_chunk_index(Some(b"99999999999999999999999")).unwrap_err(),
        UploadError::InvalidChunkIndex
    );
}

#[test]
fn content_length_header_parsing() {
    assert_eq!(
        parse_content_length(None).unwrap_err(),
        UploadError::MissingContentLength
    );
    assert_eq!(parse_content_length(Some(b"4")).unwrap(), 4);
    assert_eq!(
        parse_content_length(Some(b"4.5")).unwrap_err(),
        UploadError::InvalidContentLength
    );
    assert_eq!(
        parse_content_length(Some(b"99999999999999999999999")).unwrap_err(),
        UploadError::InvalidContentLength
    );
}

#[test]
fn prepare_chunk_write_validates_in_order() {
    let meta = begin_session(4, 10, false).unwrap();

    let r = prepare_chunk_write(Some(&meta), None, Some(b"4"));
    assert_eq!(r.unwrap_err(), UploadError::MissingChunkIndex);

    let r = prepare_chunk_write(Some(&meta), Some(b"0"), None);
    assert_eq!(r.unwrap_err(), UploadError::MissingContentLength);

    let r = prepare_chunk_write(None, Some(b"0"), Some(b"4"));
    assert_eq!(r.unwrap_err(), UploadError::FileIsNotCreated);

    let r = prepare_chunk_write(Some(&meta), Some(b"2"), Some(b"4"));
    assert_eq!(r.unwrap_err(), UploadError::InvalidContentLength);

    let plan = prepare_chunk_write(Some(&meta), Some(b"2"), Some(b"2")).unwrap();
    assert_eq!(plan.chunk_index, 2);
    assert_eq!(plan.content_length, 2);
    assert_eq!(plan.offset, 8);

    let plan = prepare_chunk_write(Some(&meta), Some(b"1"), Some(b"4")).unwrap();
    assert_eq!(plan.chunk_index, 1);
    assert_eq!(plan.offset, 4);
}

#[test]
fn locked_update_transitions_one_chunk() {
    let meta = begin_session(4, 10, false).unwrap();
    let bytes = meta.to_bytes();

    let after = update_sidecar_record(&bytes, 1, ChunkStatus::Ongoing).unwrap();
    let reread = ResumableUploadedFileMeta::from_bytes(&after).unwrap();
    assert_eq!(reread.chunk_status(0).unwrap(), ChunkStatus::NotStarted);
    assert_eq!(reread.chunk_status(1).unwrap(), ChunkStatus::Ongoing);
    assert_eq!(reread.chunk_status(2).unwrap(), ChunkStatus::NotStarted);

    // an out-of-range index changes nothing and is reported
    assert_eq!(
        update_sidecar_record(&bytes, 3, ChunkStatus::Ongoing).unwrap_err(),
        UploadError::InvalidChunkIndex
    );

    // corrupt bytes are reported, never guessed at
    assert_eq!(
        update_sidecar_record(b"not a record", 0, ChunkStatus::Ongoing).unwrap_err(),
        UploadError::UploadMetaIsBroken
    );
}

#[test]
fn inspect_reports_absent_present_and_corrupt_sessions() {
    assert!(inspect_session(None).unwrap().is_none());

    let meta = begin_session(4, 10, false).unwrap();
    let bytes = meta.to_bytes();
    let inspected = inspect_session(Some(&bytes)).unwrap().unwrap();
    assert_eq!(inspected.chunks_count(), 3);
    assert_eq!(inspected.chunk_size, 4);
    assert_eq!(inspected.file_size, 10);

    assert_eq!(
        inspect_session(Some(b"scribbles")).unwrap_err(),
        UploadError::UploadMetaIsBroken
    );
}

#[test]
fn sidecar_and_upload_paths_are_distinct_and_derived() {
    let meta_path = ResumableUploadedFileMeta::path("store/movie.mkv");
    assert_eq!(meta_path, "store/movie.mkv.resumable-meta");
    let data_path = upload_file_path("store/movie.mkv");
    assert_eq!(data_path, "store/movie.mkv.resumable-upload");
    assert_ne!(meta_path, data_path);
    assert_ne!(meta_path, "store/movie.mkv");
    assert_ne!(data_path, "store/movie.mkv");
}

#[test]
fn response_reports_both_flags() {
    let r = ResumableUploadFileResponse::new(true, false);
    assert!(r.success);
    assert!(!r.all_chunks_completed);
    let r = ResumableUploadFileResponse::new(true, true);
    assert!(r.success);
    assert!(r.all_chunks_completed);
}
