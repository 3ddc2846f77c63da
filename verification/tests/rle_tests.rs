use rust_compressor::compress_rle;
use rust_compressor::decompress_rle;
use rust_compressor::CompressionError;

#[test]
fn rle_test_empty_input() {
    let input = &[];
    let compressed = compress_rle(input).unwrap();
    let decompressed = decompress_rle(&compressed).unwrap();
    assert_eq!(input.to_vec(), decompressed);
}

#[test]
fn rle_test_single_byte() {
    let input = &[42];
    let compressed = compress_rle(input).unwrap();
    let decompressed = decompress_rle(&compressed).unwrap();
    assert_eq!(input.to_vec(), decompressed);
}

#[test]
fn test_repeated_sequence() {
    let input = b"AAABBBCCCCCDDDDE";
    let compressed = compress_rle(input).unwrap();
    let decompressed = decompress_rle(&compressed).unwrap();
    assert_eq!(input.to_vec(), decompressed);
}

#[test]
fn rle_test_no_repetition() {
    let input = b"ABCDEFGHIJKLMNOP";
    let compressed = compress_rle(input).unwrap();
    let decompressed = decompress_rle(&compressed).unwrap();
    assert_eq!(input.to_vec(), decompressed);
}

#[test]
fn test_long_repetition() {
    let mut input = Vec::new();
    for _ in 0..1000 {
        input.extend_from_slice(b"A");
    }
    let compressed = compress_rle(&input).unwrap();
    let decompressed = decompress_rle(&compressed).unwrap();
    assert_eq!(input, decompressed);
}

#[test]
fn test_invalid_compressed_data() {
    let invalid_data = vec![1, 2, 3]; // Odd length
    assert!(decompress_rle(&invalid_data).is_err());
}

#[test]
fn test_rle_exact_records() {
    // each maximal run becomes one [value, count] record
    let compressed = compress_rle(b"AAABBC").unwrap();
    assert_eq!(compressed, vec![b'A', 3, b'B', 2, b'C', 1]);
}

#[test]
fn test_rle_odd_length_error_value() {
    // the error carries the offending length
    let err = decompress_rle(&[1, 2, 3]).unwrap_err();
    assert_eq!(err, CompressionError::MalformedLength { length: 3 });
}

#[test]
fn test_rle_zero_count_record() {
    // a zero count is a legal no-op record
    let decompressed = decompress_rle(&[b'A', 0, b'B', 2]).unwrap();
    assert_eq!(decompressed, b"BB".to_vec());
}

#[test]
fn test_rle_run_split_at_255() {
    // a run of 300 equal bytes is split into records of 255 and 45
    let input = vec![7u8; 300];
    let compressed = compress_rle(&input).unwrap();
    assert_eq!(compressed, vec![7, 255, 7, 45]);
    let decompressed = decompress_rle(&compressed).unwrap();
    assert_eq!(decompressed, input);
}
