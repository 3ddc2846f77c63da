use rust_compressor::compress;
use rust_compressor::decompress;
use rust_compressor::determine_algorithm;
use rust_compressor::frame_entry;
use rust_compressor::u32_from_le;
use rust_compressor::u32_to_le;
use rust_compressor::Algo;
use rust_compressor::CliArgs;
use rust_compressor::CompressionError;

#[test]
fn test_empty_input_both_algorithms() {
    for &use_rle in &[true, false] {
        assert_eq!(compress(b"", use_rle).unwrap(), Vec::<u8>::new());
        assert_eq!(decompress(b"", use_rle).unwrap(), Vec::<u8>::new());
    }
}

#[test]
fn test_single_byte_both_algorithms() {
    for &use_rle in &[true, false] {
        let compressed = compress(&[42], use_rle).unwrap();
        let decompressed = decompress(&compressed, use_rle).unwrap();
        assert_eq!(decompressed, vec![42]);
    }
}

#[test]
fn test_round_trip_both_algorithms() {
    let input = b"the quick brown fox jumps over the lazy dog, the lazy dog sleeps";
    for &use_rle in &[true, false] {
        let compressed = compress(input, use_rle).unwrap();
        let decompressed = decompress(&compressed, use_rle).unwrap();
        assert_eq!(decompressed, input.to_vec());
    }
}

#[test]
fn test_rle_format_validation() {
    let err = decompress(&[0x01, 0x02, 0x03], true).unwrap_err();
    assert_eq!(err, CompressionError::MalformedLength { length: 3 });
}

#[test]
fn test_lz77_back_reference_validation() {
    let err = decompress(&[0x01, 0x05, 0x03], false).unwrap_err();
    assert_eq!(
        err,
        CompressionError::InvalidBackReference {
            offset: 5,
            available: 0
        }
    );
}

#[test]
fn test_determine_algorithm_flags() {
    assert!(determine_algorithm("in.txt", true, true).is_err());
    assert_eq!(determine_algorithm("in.txt", true, false).unwrap(), true);
    assert_eq!(determine_algorithm("in.bin", false, true).unwrap(), false);
    assert_eq!(determine_algorithm("in.bin", false, false).unwrap(), true);
    assert_eq!(determine_algorithm("in.txt", false, false).unwrap(), false);
}

#[test]
fn test_parse_args_valid_commands() {
    let args = CliArgs::parse_args(
        "compress".to_string(),
        "data.bin".to_string(),
        "out".to_string(),
        None,
    )
    .unwrap();
    assert!(args.is_compress());
    assert!(!args.is_decompress());
    assert!(args.is_rle());
    assert!(!args.is_lz77());

    let args = CliArgs::parse_args(
        "decompress".to_string(),
        "notes.txt".to_string(),
        "out".to_string(),
        None,
    )
    .unwrap();
    assert!(args.is_decompress());
    assert!(args.is_lz77());
}

#[test]
fn test_parse_args_explicit_algo_kept() {
    let args = CliArgs::parse_args(
        "compress".to_string(),
        "data.bin".to_string(),
        "out".to_string(),
        Some(Algo::Lz77),
    )
    .unwrap();
    assert!(args.is_lz77());
}

#[test]
fn test_parse_args_rejects_unknown_command() {
    let err = CliArgs::parse_args(
        "archive".to_string(),
        "in".to_string(),
        "out".to_string(),
        None,
    )
    .unwrap_err();
    assert_eq!(err, "Command must be either 'compress' or 'decompress'");
}

#[test]
fn test_u32_little_endian_round_trip() {
    assert_eq!(u32_to_le(0x01020304), vec![4, 3, 2, 1]);
    assert_eq!(u32_from_le(&[4, 3, 2, 1]), 0x01020304);
    for &n in &[0u32, 1, 255, 256, 65535, u32::MAX] {
        assert_eq!(u32_from_le(&u32_to_le(n)), n);
    }
}

#[test]
fn test_frame_entry_layout() {
    let name = b"a.txt".to_vec();
    let payload = vec![9u8, 8, 7];
    let framed = frame_entry(&name, &payload);
    let mut expected = vec![5, 0, 0, 0];
    expected.extend_from_slice(b"a.txt");
    expected.extend_from_slice(&[3, 0, 0, 0]);
    expected.extend_from_slice(&[9, 8, 7]);
    assert_eq!(framed, expected);
}
