use rust_compressor::compress_lz77;
use rust_compressor::compress_lz77_improved;
use rust_compressor::decompress_lz77;
use rust_compressor::CompressionError;

#[test]
fn lz77_test_empty_input() {
    let input = &[];
    let compressed = compress_lz77_improved(input).unwrap();
    let decompressed = decompress_lz77(&compressed).unwrap();
    assert_eq!(input.to_vec(), decompressed);
}

#[test]
fn lz77_test_single_byte() {
    let input = &[42];
    let compressed = compress_lz77_improved(input).unwrap();
    let decompressed = decompress_lz77(&compressed).unwrap();
    assert_eq!(input.to_vec(), decompressed);
}

#[test]
fn lz77_test_no_repetition() {
    let input = b"ABCDEFGHIJKLMNOP";
    let compressed = compress_lz77_improved(input).unwrap();
    let decompressed = decompress_lz77(&compressed).unwrap();
    assert_eq!(input.to_vec(), decompressed);
}

#[test]
fn test_invalid_offset() {
    let compressed = vec![1, 5, 3]; // Offset 5 is invalid for an empty output
    assert!(decompress_lz77(&compressed).is_err());
}

#[test]
fn test_invalid_length() {
    let compressed = vec![1, 1, 255]; // Length 255 is invalid for a small output
    assert!(decompress_lz77(&compressed).is_err());
}

#[test]
fn test_lz77_self_overlap() {
    // ten equal bytes become one literal and one self-overlapping match
    let input = b"AAAAAAAAAA";
    let compressed = compress_lz77(input).unwrap();
    assert_eq!(compressed, vec![0, b'A', 1, 1, 9]);
    let decompressed = decompress_lz77(&compressed).unwrap();
    assert_eq!(decompressed, input.to_vec());
}

#[test]
fn test_lz77_literal_fallback_tokens() {
    // with no repeated substring of length 3 or more, every byte becomes a
    // literal token
    let input = b"ABCDEFGHIJKLMNOP";
    let compressed = compress_lz77(input).unwrap();
    let mut expected = Vec::new();
    for &b in input.iter() {
        expected.push(0);
        expected.push(b);
    }
    assert_eq!(compressed, expected);
    let decompressed = decompress_lz77(&compressed).unwrap();
    assert_eq!(decompressed, input.to_vec());
}

#[test]
fn test_lz77_repeated_round_trip() {
    let input = b"ABABABABABAB";
    let compressed = compress_lz77(input).unwrap();
    let decompressed = decompress_lz77(&compressed).unwrap();
    assert_eq!(decompressed, input.to_vec());
}

#[test]
fn test_lz77_improved_long_repetition_round_trip() {
    let mut input = Vec::new();
    for _ in 0..1000 {
        input.extend_from_slice(b"ABC");
    }
    let compressed = compress_lz77_improved(&input).unwrap();
    assert!(compressed.len() < input.len());
    let decompressed = decompress_lz77(&compressed).unwrap();
    assert_eq!(decompressed, input);
}

#[test]
fn test_lz77_truncated_literal() {
    // a literal tag as the last input byte
    let err = decompress_lz77(&[0, 1, 0]).unwrap_err();
    assert_eq!(err, CompressionError::TruncatedRecord { offset: 2 });
}

#[test]
fn test_lz77_truncated_match() {
    // a match tag with only one payload byte
    let err = decompress_lz77(&[0, 9, 1, 1]).unwrap_err();
    assert_eq!(err, CompressionError::TruncatedRecord { offset: 2 });
}

#[test]
fn test_lz77_unrecognized_tag() {
    let err = decompress_lz77(&[7, 1]).unwrap_err();
    assert_eq!(err, CompressionError::UnrecognizedTag { tag: 7, offset: 0 });
}

#[test]
fn test_lz77_invalid_offset_error_value() {
    let err = decompress_lz77(&[1, 5, 3]).unwrap_err();
    assert_eq!(
        err,
        CompressionError::InvalidBackReference {
            offset: 5,
            available: 0
        }
    );
}

#[test]
fn test_lz77_zero_offset_error_value() {
    let err = decompress_lz77(&[0, 9, 1, 0, 4]).unwrap_err();
    assert_eq!(
        err,
        CompressionError::InvalidBackReference {
            offset: 0,
            available: 1
        }
    );
}
