use blackhole::command::{plan, Task, UsageError};
use blackhole::error::Error;
use blackhole::filter::{
    adaptive_filtered_data, filtered_data, paeth_predict, predict, zigzag_decode, zigzag_encode,
};

#[test]
fn zigzag_round_trips_every_residual() {
    for residual in 0..=u8::MAX {
        assert_eq!(zigzag_decode(zigzag_encode(residual)), residual);
    }
}

#[test]
fn zigzag_folds_small_differences_first() {
    let folded: Vec<u8> = [0u8, 255, 1, 254, 2, 128, 127]
        .iter()
        .map(|residual| zigzag_encode(*residual))
        .collect();
    assert_eq!(folded, vec![0, 1, 2, 3, 4, 255, 254]);
    assert_eq!(zigzag_decode(255), 128);
    assert_eq!(zigzag_decode(254), 127);
    assert_eq!(zigzag_decode(1), 255);
    for value in 0..=u8::MAX {
        assert_eq!(zigzag_encode(zigzag_decode(value)), value);
    }
}

#[test]
fn paeth_prefers_left_then_top() {
    assert_eq!(paeth_predict(10, 20, 20), 10);
    assert_eq!(paeth_predict(10, 20, 10), 20);
    assert_eq!(paeth_predict(10, 30, 20), 20);
    assert_eq!(paeth_predict(7, 7, 7), 7);
    assert_eq!(paeth_predict(0, 255, 255), 0);
    assert_eq!(paeth_predict(255, 255, 0), 255);
    assert_eq!(paeth_predict(50, 60, 56), 56);
}

#[test]
fn predictors_are_exact() {
    assert_eq!(predict(0, 9, 8, 7), 0);
    assert_eq!(predict(1, 9, 8, 7), 9);
    assert_eq!(predict(2, 9, 8, 7), 8);
    assert_eq!(predict(3, 9, 8, 7), 8);
    assert_eq!(predict(3, 255, 255, 0), 255);
    assert_eq!(predict(4, 10, 30, 20), 20);
}

#[test]
fn filtered_rows_are_exact() {
    let pixels = [10u8, 12, 11, 20, 22, 25];
    assert_eq!(filtered_data(&pixels, 3, 2, 0), vec![20, 24, 22, 40, 44, 50]);
    assert_eq!(filtered_data(&pixels, 3, 2, 1), vec![20, 4, 1, 40, 4, 6]);
    assert_eq!(filtered_data(&pixels, 3, 2, 2), vec![20, 24, 22, 20, 20, 28]);
    assert_eq!(filtered_data(&pixels, 3, 2, 3), vec![20, 14, 10, 30, 12, 18]);
    assert_eq!(filtered_data(&pixels, 0, 9, 200), Vec::<u8>::new());
    assert_eq!(filtered_data(&[200, 100, 7], 2, 1, 1), vec![111, 199]);
}

#[test]
fn rows_get_their_best_filter() {
    let pixels = [10u8, 12, 11, 20, 22, 25];
    let (filters, data) = adaptive_filtered_data(&pixels, 3, 2);
    assert_eq!(filters, vec![1, 1]);
    assert_eq!(data, vec![20, 4, 1, 40, 4, 6]);
    let (filters, data) = adaptive_filtered_data(&[5, 90, 5, 90], 2, 2);
    assert_eq!(filters, vec![1, 2]);
    assert_eq!(data, vec![10, 170, 0, 0]);
    let (filters, data) = adaptive_filtered_data(&[0, 0, 0, 0], 2, 2);
    assert_eq!(filters, vec![0, 0]);
    assert_eq!(data, vec![0, 0, 0, 0]);
    let (filters, data) = adaptive_filtered_data(&[], 0, 3);
    assert_eq!(filters, vec![0, 0, 0]);
    assert!(data.is_empty());
}

#[test]
fn error_texts_are_exact() {
    assert_eq!(
        Error::TruncatedRangePayload.message(),
        "Range-coded payload is truncated"
    );
    assert_eq!(
        Error::UnrecognizedArchive.message(),
        "Invalid file header: Not a recognized .bhol archive"
    );
    assert_eq!(Error::CorruptDeflate.message(), "corrupt deflate stream");
    assert_eq!(Error::IncompleteDeflate.message(), "incomplete deflate stream");
}

#[test]
fn command_lines_are_planned() {
    assert_eq!(plan(b"-c", 3, false), Ok(Task::Compress));
    assert_eq!(plan(b"-c", 1, true), Ok(Task::Compress));
    assert_eq!(plan(b"-d", 1, true), Ok(Task::Decompress));
    assert_eq!(plan(b"-c", 0, false), Err(UsageError::NoInput));
    assert_eq!(plan(b"-x", 0, true), Err(UsageError::NoInput));
    assert_eq!(plan(b"-d", 2, false), Err(UsageError::MissingOutput));
    assert_eq!(plan(b"-d", 2, true), Err(UsageError::AmbiguousOutput));
    assert_eq!(plan(b"-x", 2, true), Err(UsageError::AmbiguousOutput));
    assert_eq!(plan(b"-x", 1, true), Err(UsageError::InvalidOption));
    assert_eq!(plan(b"", 1, false), Err(UsageError::InvalidOption));
}
