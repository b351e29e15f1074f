use rust_book_translator::checkpoint::{TranslationCheckpoint, ValidationFailure};

fn checkpoint(completed: usize, total: usize, contents: usize) -> TranslationCheckpoint {
    TranslationCheckpoint {
        completed_chunks: completed,
        total_chunks: total,
        translated_content: (0..contents).map(|i| format!("chunk {}", i)).collect(),
        timestamp: std::time::SystemTime::UNIX_EPOCH,
    }
}

#[test]
fn consistent_checkpoint_is_valid() {
    assert!(checkpoint(3, 5, 3).validate(5).is_ok());
    assert!(checkpoint(0, 0, 0).validate(0).is_ok());
}

#[test]
fn total_mismatch_is_reported() {
    let err = checkpoint(3, 5, 3).validate(6).unwrap_err();
    assert_eq!(
        err.failures,
        vec![ValidationFailure::TotalChunksMismatch { checkpoint_total: 5, current_total: 6 }]
    );
    assert_eq!(
        err.message(),
        "Checkpoint validation failed:\nCheckpoint total_chunks (5) does not match current chunks (6)"
    );
}

#[test]
fn every_failed_check_is_reported_in_order() {
    let err = checkpoint(12, 10, 7).validate(9).unwrap_err();
    assert_eq!(err.failures.len(), 3);
    assert_eq!(
        err.message(),
        "Checkpoint validation failed:\n\
         Checkpoint total_chunks (10) does not match current chunks (9)\n\
         Checkpoint completed_chunks (12) exceeds total_chunks (10)\n\
         Checkpoint translated_content length (7) does not match completed_chunks (12)"
    );
}

#[test]
fn content_length_mismatch_is_reported() {
    let err = checkpoint(2, 4, 1).validate(4).unwrap_err();
    assert_eq!(
        err.failures,
        vec![ValidationFailure::ContentLengthMismatch { content_len: 1, completed: 2 }]
    );
    assert_eq!(
        err.failures[0].message(),
        "Checkpoint translated_content length (1) does not match completed_chunks (2)"
    );
}

#[test]
fn completed_beyond_total_is_reported() {
    let err = checkpoint(1234567, 100, 1234567).validate(100).unwrap_err();
    assert_eq!(
        err.failures,
        vec![ValidationFailure::CompletedExceedsTotal { completed: 1234567, total: 100 }]
    );
    assert_eq!(
        err.failures[0].message(),
        "Checkpoint completed_chunks (1234567) exceeds total_chunks (100)"
    );
}
