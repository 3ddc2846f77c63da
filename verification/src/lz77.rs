//! A windowed LZ77 variant. The encoded stream is a sequence of tokens:
//! `[0x00, byte]` emits a literal byte, and `[0x01, offset, length]` copies
//! `length` bytes starting `offset` bytes back from the current end of the
//! decoded output, one byte at a time, so that a back-reference may overlap
//! the bytes it is producing.
//!
//! Two encoders share the one decoder. `compress_lz77` searches a 20-byte
//! trailing window with a 15-byte lookahead and allows self-overlapping
//! matches; `compress_lz77_improved` searches a 255-byte window with a
//! 255-byte lookahead but never lets a match run past its own start. Both
//! emit a match only when it is at least 3 bytes long, the point below which
//! a match token costs more than literals.

use vstd::prelude::*;

use crate::error::CompressionError;

verus! {

/// How far the bytes at `d[i - off ..]` keep matching the bytes at
/// `d[i ..]`, starting from a partial match of `l` bytes and capped at the
/// 15-byte lookahead of the windowed encoder.
pub open spec fn match_len(d: Seq<u8>, i: int, off: int, l: int) -> int
    decreases 15 - l,
{
    if l < 15 && i + l < d.len() && d[i - off + l] == d[i + l] {
        match_len(d, i, off, l + 1)
    } else {
        l
    }
}

/// The best `(offset, length)` match for position `i` among offsets
/// `1 ..= w`, preferring the smallest offset on equal lengths (the search
/// tries offsets in ascending order and replaces only on a strictly longer
/// match).
pub open spec fn best_match(d: Seq<u8>, i: int, w: int) -> (int, int)
    decreases w,
{
    if w <= 0 {
        (0, 0)
    } else {
        let prev = best_match(d, i, w - 1);
        let l = match_len(d, i, w, 0);
        if l > prev.1 {
            (w, l)
        } else {
            prev
        }
    }
}

/// The window available at position `i`: the 20 previous bytes, fewer near
/// the start of the input.
pub open spec fn window_at(i: int) -> int {
    if i < 20 {
        i
    } else {
        20
    }
}

proof fn lemma_match_len_bounds(d: Seq<u8>, i: int, off: int, l: int)
    requires
        0 <= l <= 15,
        i + l <= d.len(),
    ensures
        l <= match_len(d, i, off, l) <= 15,
        i + match_len(d, i, off, l) <= d.len(),
        forall|k: int| l <= k < match_len(d, i, off, l) ==> #[trigger] d[i - off + k] == d[i + k],
    decreases 15 - l,
{
    if l < 15 && i + l < d.len() && d[i - off + l] == d[i + l] {
        lemma_match_len_bounds(d, i, off, l + 1);
    }
}

proof fn lemma_best_match(d: Seq<u8>, i: int, w: int)
    requires
        0 <= w <= i <= d.len(),
    ensures
        0 <= best_match(d, i, w).1 <= 15,
        i + best_match(d, i, w).1 <= d.len(),
        best_match(d, i, w).1 > 0 ==> 1 <= best_match(d, i, w).0 <= w,
        forall|k: int|
            0 <= k < best_match(d, i, w).1 ==> #[trigger] d[i - best_match(d, i, w).0 + k] == d[i
                + k],
    decreases w,
{
    if w > 0 {
        lemma_best_match(d, i, w - 1);
        lemma_match_len_bounds(d, i, w, 0);
    }
}

/// How far the bytes at `d[j ..]` keep matching the bytes at `d[i ..]`,
/// starting from a partial match of `l` bytes. The improved encoder caps a
/// match at 255 bytes and never lets it run past position `i`, so a match
/// never overlaps the bytes it stands for.
pub open spec fn match_len_improved(d: Seq<u8>, i: int, j: int, l: int) -> int
    decreases 255 - l,
{
    if l < 255 && i + l < d.len() && j + l < i && d[j + l] == d[i + l] {
        match_len_improved(d, i, j, l + 1)
    } else {
        l
    }
}

/// The best `(offset, length)` match for position `i` among source positions
/// `lo ..< hi`, preferring the earliest source position (the largest offset)
/// on equal lengths.
pub open spec fn best_match_improved(d: Seq<u8>, i: int, lo: int, hi: int) -> (int, int)
    decreases hi - lo,
{
    if hi <= lo {
        (0, 0)
    } else {
        let prev = best_match_improved(d, i, lo, hi - 1);
        let l = match_len_improved(d, i, hi - 1, 0);
        if l > prev.1 {
            (i - (hi - 1), l)
        } else {
            prev
        }
    }
}

/// Where the improved encoder's 255-byte window begins at position `i`.
pub open spec fn window_start(i: int) -> int {
    if i > 255 {
        i - 255
    } else {
        0
    }
}

proof fn lemma_match_len_improved_bounds(d: Seq<u8>, i: int, j: int, l: int)
    requires
        0 <= l <= 255,
        i + l <= d.len(),
        j + l <= i,
    ensures
        l <= match_len_improved(d, i, j, l) <= 255,
        i + match_len_improved(d, i, j, l) <= d.len(),
        j + match_len_improved(d, i, j, l) <= i,
        forall|k: int| l <= k < match_len_improved(d, i, j, l) ==> #[trigger] d[j + k] == d[i + k],
    decreases 255 - l,
{
    if l < 255 && i + l < d.len() && j + l < i && d[j + l] == d[i + l] {
        lemma_match_len_improved_bounds(d, i, j, l + 1);
    }
}

proof fn lemma_best_match_improved(d: Seq<u8>, i: int, lo: int, hi: int)
    requires
        0 <= lo <= hi <= i <= d.len(),
    ensures
        0 <= best_match_improved(d, i, lo, hi).1 <= 255,
        i + best_match_improved(d, i, lo, hi).1 <= d.len(),
        best_match_improved(d, i, lo, hi).1 > 0 ==> 1 <= best_match_improved(d, i, lo, hi).0 <= i
            - lo,
        forall|k: int|
            0 <= k < best_match_improved(d, i, lo, hi).1 ==> #[trigger] d[i - best_match_improved(
                d,
                i,
                lo,
                hi,
            ).0 + k] == d[i + k],
    decreases hi - lo,
{
    if hi > lo {
        lemma_best_match_improved(d, i, lo, hi - 1);
        lemma_match_len_improved_bounds(d, i, hi - 1, 0);
    }
}

/// The improved LZ77 encoding of `d` from position `i` on.
pub open spec fn lz_encode_improved_from(d: Seq<u8>, i: int) -> Seq<u8>
    decreases d.len() - i,
    via lz_encode_improved_decreases
{
    if i < 0 || i >= d.len() {
        Seq::empty()
    } else {
        let m = best_match_improved(d, i, window_start(i), i);
        if m.1 > 2 {
            seq![1u8, m.0 as u8, m.1 as u8] + lz_encode_improved_from(d, i + m.1)
        } else {
            seq![0u8, d[i]] + lz_encode_improved_from(d, i + 1)
        }
    }
}

#[via_fn]
proof fn lz_encode_improved_decreases(d: Seq<u8>, i: int) {
    if 0 <= i < d.len() {
        lemma_best_match_improved(d, i, window_start(i), i);
    }
}

/// The LZ77 encoding of `d` from position `i` on: a match token where the
/// windowed search finds a match of length at least 3, a literal token
/// otherwise.
pub open spec fn lz_encode_from(d: Seq<u8>, i: int) -> Seq<u8>
    decreases d.len() - i,
    via lz_encode_decreases
{
    if i < 0 || i >= d.len() {
        Seq::empty()
    } else {
        let m = best_match(d, i, window_at(i));
        if m.1 >= 3 {
            seq![1u8, m.0 as u8, m.1 as u8] + lz_encode_from(d, i + m.1)
        } else {
            seq![0u8, d[i]] + lz_encode_from(d, i + 1)
        }
    }
}

#[via_fn]
proof fn lz_encode_decreases(d: Seq<u8>, i: int) {
    if 0 <= i < d.len() {
        lemma_best_match(d, i, window_at(i));
    }
}

/// The output after replaying a back-reference: `len` times, append the byte
/// `off` positions back from the current end.
pub open spec fn extend_match(acc: Seq<u8>, off: int, len: int) -> Seq<u8>
    decreases len,
{
    if len <= 0 {
        acc
    } else {
        extend_match(acc.push(acc[acc.len() - off]), off, len - 1)
    }
}

/// The decoding of the token stream `s` from position `i` on, with `acc` the
/// output produced so far: the decoded bytes, or the first error met.
pub open spec fn lz_decode_from(s: Seq<u8>, i: int, acc: Seq<u8>) -> Result<
    Seq<u8>,
    CompressionError,
>
    decreases s.len() - i,
{
    if i < 0 || i >= s.len() {
        Ok(acc)
    } else if s[i] == 0 {
        if i + 1 >= s.len() {
            Err(CompressionError::TruncatedRecord { offset: i as usize })
        } else {
            lz_decode_from(s, i + 2, acc.push(s[i + 1]))
        }
    } else if s[i] == 1 {
        if i + 2 >= s.len() {
            Err(CompressionError::TruncatedRecord { offset: i as usize })
        } else if s[i + 1] == 0 || s[i + 1] > acc.len() {
            Err(
                CompressionError::InvalidBackReference {
                    offset: s[i + 1] as usize,
                    available: acc.len() as usize,
                },
            )
        } else {
            lz_decode_from(s, i + 3, extend_match(acc, s[i + 1] as int, s[i + 2] as int))
        }
    } else {
        Err(CompressionError::UnrecognizedTag { tag: s[i], offset: i as usize })
    }
}

/// Replaying a back-reference whose source bytes equal the upcoming input
/// bytes extends a decoded prefix of `d` to a longer decoded prefix of `d`.
proof fn lemma_extend_match(d: Seq<u8>, i: int, off: int, len: int)
    requires
        0 <= len,
        1 <= off <= i,
        i + len <= d.len(),
        d.subrange(i - off, i - off + len) == d.subrange(i, i + len),
    ensures
        extend_match(d.subrange(0, i), off, len) == d.subrange(0, i + len),
    decreases len,
{
    let acc = d.subrange(0, i);
    if len <= 0 {
        assert(extend_match(acc, off, len) =~= d.subrange(0, i));
    } else {
        assert(d.subrange(i - off, i - off + len)[0] == d.subrange(i, i + len)[0]);
        assert(d.subrange(i - off, i - off + len)[0] == d[i - off + 0]);
        assert(d.subrange(i, i + len)[0] == d[i + 0]);
        assert(d[i - off] == d[i]);
        assert(acc[acc.len() - off] == d[i - off]);
        assert(acc.push(d[i]) =~= d.subrange(0, i + 1));
        assert(d.subrange(i + 1 - off, i + 1 - off + (len - 1)) == d.subrange(
            i + 1,
            i + 1 + (len - 1),
        )) by {
            assert(d.subrange(i + 1 - off, i - off + len) =~= d.subrange(
                i - off,
                i - off + len,
            ).skip(1));
            assert(d.subrange(i + 1, i + len) =~= d.subrange(i, i + len).skip(1));
        }
        lemma_extend_match(d, i + 1, off, len - 1);
    }
}

/// Decoding a tail of an encoded stream from a decoded prefix of the
/// original input recovers the whole input.
proof fn lemma_lz77_round_trip_from(d: Seq<u8>, s: Seq<u8>, pos: int, i: int)
    requires
        0 <= i <= d.len(),
        0 <= pos <= s.len(),
        s.subrange(pos, s.len() as int) == lz_encode_from(d, i),
    ensures
        lz_decode_from(s, pos, d.subrange(0, i)) == Result::<Seq<u8>, CompressionError>::Ok(d),
    decreases d.len() - i,
{
    let suf = s.subrange(pos, s.len() as int);
    let acc = d.subrange(0, i);
    if i == d.len() {
        assert(suf.len() == 0);
        assert(pos == s.len());
        assert(acc =~= d);
    } else {
        lemma_best_match(d, i, window_at(i));
        let m = best_match(d, i, window_at(i));
        if m.1 >= 3 {
            let bo = m.0;
            let bl = m.1;
            assert(suf == seq![1u8, bo as u8, bl as u8] + lz_encode_from(d, i + bl));
            assert(pos + 2 < s.len());
            assert(s[pos] == suf[0] && s[pos + 1] == suf[1] && s[pos + 2] == suf[2]);
            assert(s[pos + 1] as int == bo && s[pos + 2] as int == bl);
            assert(!(s[pos + 1] == 0 || s[pos + 1] > acc.len()));
            assert forall|j: int| 0 <= j < bl implies #[trigger] d.subrange(i - bo, i - bo + bl)[j]
                == d.subrange(i, i + bl)[j] by {
                assert(d[i - bo + j] == d[i + j]);
            }
            assert(d.subrange(i - bo, i - bo + bl) =~= d.subrange(i, i + bl));
            lemma_extend_match(d, i, bo, bl);
            assert(s.subrange(pos + 3, s.len() as int) =~= suf.skip(3));
            assert(suf.skip(3) =~= lz_encode_from(d, i + bl));
            lemma_lz77_round_trip_from(d, s, pos + 3, i + bl);
        } else {
            assert(suf == seq![0u8, d[i]] + lz_encode_from(d, i + 1));
            assert(s[pos] == suf[0] && s[pos + 1] == suf[1]);
            assert(pos + 1 < s.len());
            assert(acc.push(s[pos + 1]) =~= d.subrange(0, i + 1));
            assert(s.subrange(pos + 2, s.len() as int) =~= suf.skip(2));
            assert(suf.skip(2) =~= lz_encode_from(d, i + 1));
            lemma_lz77_round_trip_from(d, s, pos + 2, i + 1);
        }
    }
}

/// Compress `data` with the windowed LZ77 encoder (20-byte window, 15-byte
/// lookahead).
///
/// Compression cannot fail: the result is always the encoding that the
/// greedy longest-match search produces, and by `lemma_lz77_round_trip` it
/// decodes back to `data`.
pub fn compress_lz77(data: &[u8]) -> (r: Result<Vec<u8>, CompressionError>)
    ensures
        r is Ok,
        r.unwrap()@ == lz_encode_from(data@, 0),
{
    let mut out: Vec<u8> = Vec::new();
    let mut i: usize = 0;
    proof {
        assert(out@ + lz_encode_from(data@, 0) =~= lz_encode_from(data@, 0));
    }
    while i < data.len()
        invariant
            i <= data.len(),
            lz_encode_from(data@, 0) == out@ + lz_encode_from(data@, i as int),
        decreases data.len() - i,
    {
        let w: usize = if i < 20 {
            i
        } else {
            20
        };
        let mut match_offset: usize = 0;
        let mut match_length: usize = 0;
        let mut offset: usize = 1;
        while offset <= w
            invariant
                i < data.len(),
                w as int == window_at(i as int),
                w <= i,
                1 <= offset <= w + 1,
                best_match(data@, i as int, offset - 1) == (
                    match_offset as int,
                    match_length as int,
                ),
                match_offset <= w,
                match_length <= 15,
                i + match_length <= data.len(),
            decreases w + 1 - offset,
        {
            let mut length: usize = 0;
            while i + length < data.len() && length < 15 && data[i - offset + length] == data[i
                + length]
                invariant
                    i < data.len(),
                    1 <= offset <= i,
                    length <= 15,
                    i + length <= data.len(),
                    match_len(data@, i as int, offset as int, 0) == match_len(
                        data@,
                        i as int,
                        offset as int,
                        length as int,
                    ),
                decreases 15 - length,
            {
                length = length + 1;
            }
            proof {
                assert(match_len(data@, i as int, offset as int, length as int) == length);
                assert(best_match(data@, i as int, offset as int) == (
                    if length > match_length {
                        (offset as int, length as int)
                    } else {
                        (match_offset as int, match_length as int)
                    }
                ));
            }
            if length > match_length {
                match_length = length;
                match_offset = offset;
            }
            offset = offset + 1;
        }
        let ghost m = best_match(data@, i as int, window_at(i as int));
        proof {
            assert(m == (match_offset as int, match_length as int));
        }
        if match_length >= 3 {
            let ghost out0 = out@;
            out.push(1);
            out.push(match_offset as u8);
            out.push(match_length as u8);
            proof {
                assert(match_offset as u8 as int == m.0 as u8 as int);
                assert(match_length as u8 as int == m.1 as u8 as int);
                assert(out@ =~= out0 + seq![1u8, m.0 as u8, m.1 as u8]);
                assert(lz_encode_from(data@, i as int) == seq![1u8, m.0 as u8, m.1 as u8]
                    + lz_encode_from(data@, i + m.1));
                assert(out@ + lz_encode_from(data@, i + m.1) =~= out0 + lz_encode_from(
                    data@,
                    i as int,
                ));
            }
            i = i + match_length;
        } else {
            let ghost out0 = out@;
            out.push(0);
            out.push(data[i]);
            proof {
                assert(out@ =~= out0 + seq![0u8, data@[i as int]]);
                assert(lz_encode_from(data@, i as int) == seq![0u8, data@[i as int]]
                    + lz_encode_from(data@, i + 1));
                assert(out@ + lz_encode_from(data@, i + 1) =~= out0 + lz_encode_from(
                    data@,
                    i as int,
                ));
            }
            i = i + 1;
        }
    }
    proof {
        assert(out@ + lz_encode_from(data@, data@.len() as int) =~= out@);
    }
    Ok(out)
}

/// Decompress an LZ77 token stream.
///
/// The result is exactly what the specification decoder yields: the decoded
/// bytes when the stream is well-formed, and otherwise the first error met
/// while scanning it (a truncated token, a back-reference of zero or beyond
/// the produced output, or an unrecognized tag byte).
pub fn decompress_lz77(data: &[u8]) -> (r: Result<Vec<u8>, CompressionError>)
    ensures
        (r is Ok <==> lz_decode_from(data@, 0, Seq::empty()) is Ok),
        r is Ok ==> r.unwrap()@ == lz_decode_from(data@, 0, Seq::empty())->Ok_0,
        r is Err ==> r.unwrap_err() == lz_decode_from(data@, 0, Seq::empty())->Err_0,
{
    let mut out: Vec<u8> = Vec::new();
    let mut i: usize = 0;
    while i < data.len()
        invariant
            i <= data.len(),
            lz_decode_from(data@, 0, Seq::empty()) == lz_decode_from(data@, i as int, out@),
        decreases data.len() - i,
    {
        let tag = data[i];
        if tag == 0 {
            if data.len() - i < 2 {
                return Err(CompressionError::TruncatedRecord { offset: i });
            }
            out.push(data[i + 1]);
            i = i + 2;
        } else if tag == 1 {
            if data.len() - i < 3 {
                return Err(CompressionError::TruncatedRecord { offset: i });
            }
            let offset = data[i + 1] as usize;
            let length = data[i + 2] as usize;
            if offset == 0 || out.len() < offset {
                return Err(
                    CompressionError::InvalidBackReference { offset, available: out.len() },
                );
            }
            let ghost acc0 = out@;
            let mut k: usize = 0;
            while k < length
                invariant
                    k <= length,
                    1 <= offset <= out@.len(),
                    extend_match(out@, offset as int, (length - k) as int) == extend_match(
                        acc0,
                        offset as int,
                        length as int,
                    ),
                decreases length - k,
            {
                let b = out[out.len() - offset];
                out.push(b);
                k = k + 1;
            }
            proof {
                assert(out@ == extend_match(acc0, offset as int, length as int));
                assert(lz_decode_from(data@, i as int, acc0) == lz_decode_from(
                    data@,
                    i + 3,
                    out@,
                ));
            }
            i = i + 3;
        } else {
            return Err(CompressionError::UnrecognizedTag { tag, offset: i });
        }
    }
    Ok(out)
}

/// Decoding inverts encoding: for every input, the stream the windowed
/// encoder produces decodes back to that input.
pub proof fn lemma_lz77_round_trip(d: Seq<u8>)
    ensures
        lz_decode_from(lz_encode_from(d, 0), 0, Seq::empty()) == Result::<
            Seq<u8>,
            CompressionError,
        >::Ok(d),
{
    let s = lz_encode_from(d, 0);
    assert(s.subrange(0, s.len() as int) =~= s);
    assert(d.subrange(0, 0) =~= Seq::<u8>::empty());
    lemma_lz77_round_trip_from(d, s, 0, 0);
}

/// Compress `data` with the improved LZ77 encoder (255-byte window, 255-byte
/// lookahead, matches never overlapping the bytes they stand for).
///
/// Compression cannot fail: the window and lookahead bounds keep every
/// offset and length within the one-byte wire fields, so the
/// `EncodableRangeExceeded` guards can never fire, and the result is always
/// the encoding the greedy search produces. By
/// `lemma_lz77_improved_round_trip` it decodes back to `data`.
pub fn compress_lz77_improved(data: &[u8]) -> (r: Result<Vec<u8>, CompressionError>)
    ensures
        r is Ok,
        r.unwrap()@ == lz_encode_improved_from(data@, 0),
{
    if data.is_empty() {
        let empty: Vec<u8> = Vec::new();
        return Ok(empty);
    }
    let mut out: Vec<u8> = Vec::new();
    let mut i: usize = 0;
    proof {
        assert(out@ + lz_encode_improved_from(data@, 0) =~= lz_encode_improved_from(data@, 0));
    }
    while i < data.len()
        invariant
            i <= data.len(),
            lz_encode_improved_from(data@, 0) == out@ + lz_encode_improved_from(data@, i as int),
        decreases data.len() - i,
    {
        let ws: usize = if i > 255 {
            i - 255
        } else {
            0
        };
        let mut best_length: usize = 0;
        let mut best_offset: usize = 0;
        let mut j: usize = ws;
        while j < i
            invariant
                i < data.len(),
                ws as int == window_start(i as int),
                ws <= j <= i,
                best_match_improved(data@, i as int, ws as int, j as int) == (
                    best_offset as int,
                    best_length as int,
                ),
                best_offset <= i - ws,
                best_length <= 255,
                i + best_length <= data.len(),
            decreases i - j,
        {
            let mut l: usize = 0;
            while l < 255 && i + l < data.len() && j + l < i && data[j + l] == data[i + l]
                invariant
                    i < data.len(),
                    j < i,
                    l <= 255,
                    i + l <= data.len(),
                    j + l <= i,
                    match_len_improved(data@, i as int, j as int, 0) == match_len_improved(
                        data@,
                        i as int,
                        j as int,
                        l as int,
                    ),
                decreases 255 - l,
            {
                l = l + 1;
            }
            proof {
                assert(match_len_improved(data@, i as int, j as int, l as int) == l);
                assert(best_match_improved(data@, i as int, ws as int, j + 1) == (
                    if l > best_length {
                        (i - j, l as int)
                    } else {
                        (best_offset as int, best_length as int)
                    }
                ));
            }
            if l > best_length {
                best_length = l;
                best_offset = i - j;
            }
            j = j + 1;
        }
        let ghost m = best_match_improved(data@, i as int, window_start(i as int), i as int);
        proof {
            assert(m == (best_offset as int, best_length as int));
            assert(i - ws <= 255);
        }
        if best_length > 2 {
            if best_offset > 255 {
                return Err(CompressionError::EncodableRangeExceeded { value: best_offset });
            }
            if best_length > 255 {
                return Err(CompressionError::EncodableRangeExceeded { value: best_length });
            }
            let ghost out0 = out@;
            out.push(1);
            out.push(best_offset as u8);
            out.push(best_length as u8);
            proof {
                assert(out@ =~= out0 + seq![1u8, m.0 as u8, m.1 as u8]);
                assert(lz_encode_improved_from(data@, i as int) == seq![1u8, m.0 as u8, m.1 as u8]
                    + lz_encode_improved_from(data@, i + m.1));
                assert(out@ + lz_encode_improved_from(data@, i + m.1) =~= out0
                    + lz_encode_improved_from(data@, i as int));
            }
            i = i + best_length;
        } else {
            let ghost out0 = out@;
            out.push(0);
            out.push(data[i]);
            proof {
                assert(out@ =~= out0 + seq![0u8, data@[i as int]]);
                assert(lz_encode_improved_from(data@, i as int) == seq![0u8, data@[i as int]]
                    + lz_encode_improved_from(data@, i + 1));
                assert(out@ + lz_encode_improved_from(data@, i + 1) =~= out0
                    + lz_encode_improved_from(data@, i as int));
            }
            i = i + 1;
        }
    }
    proof {
        assert(out@ + lz_encode_improved_from(data@, data@.len() as int) =~= out@);
    }
    Ok(out)
}

proof fn lemma_lz77_improved_round_trip_from(d: Seq<u8>, s: Seq<u8>, pos: int, i: int)
    requires
        0 <= i <= d.len(),
        0 <= pos <= s.len(),
        s.subrange(pos, s.len() as int) == lz_encode_improved_from(d, i),
    ensures
        lz_decode_from(s, pos, d.subrange(0, i)) == Result::<Seq<u8>, CompressionError>::Ok(d),
    decreases d.len() - i,
{
    let suf = s.subrange(pos, s.len() as int);
    let acc = d.subrange(0, i);
    if i == d.len() {
        assert(suf.len() == 0);
        assert(pos == s.len());
        assert(acc =~= d);
    } else {
        lemma_best_match_improved(d, i, window_start(i), i);
        let m = best_match_improved(d, i, window_start(i), i);
        if m.1 > 2 {
            let bo = m.0;
            let bl = m.1;
            assert(bo <= 255);
            assert(suf == seq![1u8, bo as u8, bl as u8] + lz_encode_improved_from(d, i + bl));
            assert(pos + 2 < s.len());
            assert(s[pos] == suf[0] && s[pos + 1] == suf[1] && s[pos + 2] == suf[2]);
            assert(s[pos + 1] as int == bo && s[pos + 2] as int == bl);
            assert(!(s[pos + 1] == 0 || s[pos + 1] > acc.len()));
            assert forall|j: int| 0 <= j < bl implies #[trigger] d.subrange(i - bo, i - bo + bl)[j]
                == d.subrange(i, i + bl)[j] by {
                assert(d[i - bo + j] == d[i + j]);
            }
            assert(d.subrange(i - bo, i - bo + bl) =~= d.subrange(i, i + bl));
            lemma_extend_match(d, i, bo, bl);
            assert(s.subrange(pos + 3, s.len() as int) =~= suf.skip(3));
            assert(suf.skip(3) =~= lz_encode_improved_from(d, i + bl));
            lemma_lz77_improved_round_trip_from(d, s, pos + 3, i + bl);
        } else {
            assert(suf == seq![0u8, d[i]] + lz_encode_improved_from(d, i + 1));
            assert(s[pos] == suf[0] && s[pos + 1] == suf[1]);
            assert(pos + 1 < s.len());
            assert(acc.push(s[pos + 1]) =~= d.subrange(0, i + 1));
            assert(s.subrange(pos + 2, s.len() as int) =~= suf.skip(2));
            assert(suf.skip(2) =~= lz_encode_improved_from(d, i + 1));
            lemma_lz77_improved_round_trip_from(d, s, pos + 2, i + 1);
        }
    }
}

/// The all-literal encoding of `d` from position `i` on: one `[0x00, byte]`
/// token per input byte.
pub open spec fn lit_encode_from(d: Seq<u8>, i: int) -> Seq<u8>
    decreases d.len() - i,
{
    if i < 0 || i >= d.len() {
        Seq::empty()
    } else {
        seq![0u8, d[i]] + lit_encode_from(d, i + 1)
    }
}

proof fn lemma_lz77_literal_fallback_from(d: Seq<u8>, i: int)
    requires
        0 <= i <= d.len(),
        forall|p: int| 0 <= p < d.len() ==> (#[trigger] best_match(d, p, window_at(p))).1 < 3,
    ensures
        lz_encode_from(d, i) == lit_encode_from(d, i),
    decreases d.len() - i,
{
    if i < d.len() {
        lemma_lz77_literal_fallback_from(d, i + 1);
    }
}

/// Literal fallback: when no position of the input offers a match of the
/// profitable length (at least 3 bytes), the windowed encoder emits one
/// literal token per input byte.
pub proof fn lemma_lz77_literal_fallback(d: Seq<u8>)
    requires
        forall|p: int| 0 <= p < d.len() ==> (#[trigger] best_match(d, p, window_at(p))).1 < 3,
    ensures
        lz_encode_from(d, 0) == lit_encode_from(d, 0),
{
    lemma_lz77_literal_fallback_from(d, 0);
}

/// Decoding inverts the improved encoder as well: for every input, the
/// stream it produces decodes back to that input.
pub proof fn lemma_lz77_improved_round_trip(d: Seq<u8>)
    ensures
        lz_decode_from(lz_encode_improved_from(d, 0), 0, Seq::empty()) == Result::<
            Seq<u8>,
            CompressionError,
        >::Ok(d),
{
    let s = lz_encode_improved_from(d, 0);
    assert(s.subrange(0, s.len() as int) =~= s);
    assert(d.subrange(0, 0) =~= Seq::<u8>::empty());
    lemma_lz77_improved_round_trip_from(d, s, 0, 0);
}

} // verus!
