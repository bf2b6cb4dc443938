use simple_file_store::errors::UploadError;
use simple_file_store::upload::{
    begin_session, chunk_status_after_write, prepare_chunk_write, update_sidecar_record,
    ChunkStatus, ResumableUploadedFileMeta,
};
use simple_file_store::writer::write_chunk_bytes;

#[test]
fn positioned_write_replaces_only_its_range() {
    let mut file = vec![0u8; 10];
    write_chunk_bytes(&mut file, 4, &[5, 6, 7, 8]);
    assert_eq!(file, vec![0, 0, 0, 0, 5, 6, 7, 8, 0, 0]);
    write_chunk_bytes(&mut file, 0, &[1, 2, 3, 4]);
    assert_eq!(file, vec![1, 2, 3, 4, 5, 6, 7, 8, 0, 0]);
}

#[test]
fn out_of_order_chunks_concatenate_in_index_order() {
    // chunkSize=4, totalSize=10: chunks of logical sizes 4, 4, 2,
    // written in the order 2, 0, 1
    let payloads: [&[u8]; 3] = [&[1, 2, 3, 4], &[5, 6, 7, 8], &[9, 10]];
    let mut file = vec![0u8; 10];
    for &i in &[2usize, 0, 1] {
        write_chunk_bytes(&mut file, i * 4, payloads[i]);
    }
    assert_eq!(file, vec![1, 2, 3, 4, 5, 6, 7, 8, 9, 10]);
}

/// The whole write-chunk protocol run against an in-memory file and sidecar:
/// validate, mark ongoing, write positionally, mark completed, finalize when
/// every chunk is done.
#[test]
fn full_upload_in_scrambled_order() {
    let chunk_size: usize = 4;
    let total: u64 = 10;
    let meta = begin_session(chunk_size, total, false).unwrap();
    let mut sidecar = meta.to_bytes();
    let mut file = vec![0u8; total as usize];
    let payloads: [&[u8]; 3] = [&[10, 20, 30, 40], &[50, 60, 70, 80], &[90, 100]];

    let mut finalized = false;
    for &(i, len) in &[(2usize, 2usize), (0, 4), (1, 4)] {
        let current = ResumableUploadedFileMeta::from_bytes(&sidecar).unwrap();
        let index_header = format!("{}", i);
        let length_header = format!("{}", len);
        let plan = prepare_chunk_write(
            Some(&current),
            Some(index_header.as_bytes()),
            Some(length_header.as_bytes()),
        )
        .unwrap();
        sidecar = update_sidecar_record(&sidecar, plan.chunk_index, ChunkStatus::Ongoing).unwrap();
        write_chunk_bytes(&mut file, plan.offset as usize, payloads[i]);
        sidecar = update_sidecar_record(
            &sidecar,
            plan.chunk_index,
            chunk_status_after_write(true),
        )
        .unwrap();
        let after = ResumableUploadedFileMeta::from_bytes(&sidecar).unwrap();
        if after.all_chunks_completed() {
            finalized = true;
        }
    }

    assert!(finalized);
    // the finished file is the concatenation of the payloads in index order
    assert_eq!(file, vec![10, 20, 30, 40, 50, 60, 70, 80, 90, 100]);
}

#[test]
fn second_writer_for_the_same_chunk_is_rejected() {
    let meta = begin_session(4, 10, false).unwrap();
    let sidecar = meta.to_bytes();

    // both callers validate against the same map; the first commits
    let first = ResumableUploadedFileMeta::from_bytes(&sidecar).unwrap();
    assert!(first.check_chunk_request(0, 4).is_ok());
    let sidecar = update_sidecar_record(&sidecar, 0, ChunkStatus::Ongoing).unwrap();

    // the second reads the sidecar under its own lock and is turned away
    let second = ResumableUploadedFileMeta::from_bytes(&sidecar).unwrap();
    assert_eq!(
        second.check_chunk_request(0, 4).unwrap_err(),
        UploadError::ChunkIsOngoing
    );

    // and once the first finished, a latecomer sees it completed
    let sidecar = update_sidecar_record(&sidecar, 0, ChunkStatus::Completed).unwrap();
    let third = ResumableUploadedFileMeta::from_bytes(&sidecar).unwrap();
    assert_eq!(
        third.check_chunk_request(0, 4).unwrap_err(),
        UploadError::ChunkIsCompleted
    );
}

#[test]
fn failed_write_retries_cleanly() {
    let meta = begin_session(4, 10, false).unwrap();
    let sidecar0 = meta.to_bytes();

    let sidecar1 = update_sidecar_record(&sidecar0, 1, ChunkStatus::Ongoing).unwrap();
    // the positioned write fails: the chunk reverts to not started
    let sidecar2 = update_sidecar_record(&sidecar1, 1, chunk_status_after_write(false)).unwrap();
    assert_eq!(sidecar2, sidecar0);

    // the retry with the same index succeeds
    let retry = ResumableUploadedFileMeta::from_bytes(&sidecar2).unwrap();
    assert!(retry.check_chunk_request(1, 4).is_ok());
}
