//! Byte-stream compression with two interchangeable codecs: run-length
//! encoding (RLE) and a windowed LZ77 variant. Each codec is specified by a
//! mathematical encode/decode pair over byte sequences, the executable code
//! is proved to match it, and round-trip lemmas show that decompression
//! inverts compression.

use vstd::prelude::*;

mod cli;
mod container;
mod detect;
mod error;
mod lz77;
mod rle;

pub use cli::Algo;
pub use cli::CliArgs;
pub use cli::determine_algorithm;
pub use container::frame_entry;
pub use container::u32_from_le;
pub use container::u32_le_bytes;
pub use container::u32_to_le;
pub use detect::detect_best_algorithm;
pub use detect::spec_detect_rle;
pub use error::CompressionError;
pub use lz77::best_match;
pub use lz77::best_match_improved;
pub use lz77::compress_lz77;
pub use lz77::compress_lz77_improved;
pub use lz77::decompress_lz77;
pub use lz77::lemma_lz77_improved_round_trip;
pub use lz77::lemma_lz77_literal_fallback;
pub use lz77::lemma_lz77_round_trip;
pub use lz77::lit_encode_from;
pub use lz77::lz_decode_from;
pub use lz77::lz_encode_from;
pub use lz77::lz_encode_improved_from;
pub use lz77::match_len;
pub use lz77::match_len_improved;
pub use lz77::window_at;
pub use lz77::window_start;
pub use rle::capped_run;
pub use rle::compress_rle;
pub use rle::decompress_rle;
pub use rle::front_run;
pub use rle::lemma_front_run_spec;
pub use rle::lemma_rle_round_trip;
pub use rle::rle_decode;
pub use rle::rle_encode;

verus! {

/// Compress `data` with the codec `use_rle` selects: run-length encoding
/// when true, the windowed LZ77 encoder when false.
///
/// Compression cannot fail; the result is exactly the selected codec's
/// encoding of the input.
pub fn compress(data: &[u8], use_rle: bool) -> (r: Result<Vec<u8>, CompressionError>)
    ensures
        r is Ok,
        use_rle ==> r.unwrap()@ == rle_encode(data@),
        !use_rle ==> r.unwrap()@ == lz_encode_from(data@, 0),
{
    if use_rle {
        compress_rle(data)
    } else {
        compress_lz77(data)
    }
}

/// Decompress `data` with the codec `use_rle` selects.
///
/// The result is exactly what the selected codec's specification decoder
/// yields: the decoded bytes on well-formed input, and otherwise the first
/// error met while scanning the stream.
pub fn decompress(data: &[u8], use_rle: bool) -> (r: Result<Vec<u8>, CompressionError>)
    ensures
        use_rle ==> {
            &&& data@.len() % 2 == 0 ==> r is Ok && r.unwrap()@ == rle_decode(data@)
            &&& data@.len() % 2 != 0 ==> r == Result::<Vec<u8>, CompressionError>::Err(
                CompressionError::MalformedLength { length: data@.len() as usize },
            )
        },
        !use_rle ==> {
            &&& (r is Ok <==> lz_decode_from(data@, 0, Seq::empty()) is Ok)
            &&& r is Ok ==> r.unwrap()@ == lz_decode_from(data@, 0, Seq::empty())->Ok_0
            &&& r is Err ==> r.unwrap_err() == lz_decode_from(data@, 0, Seq::empty())->Err_0
        },
{
    if use_rle {
        decompress_rle(data)
    } else {
        decompress_lz77(data)
    }
}

} // verus!
