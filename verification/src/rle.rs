//! Run-length encoding. A stream is a sequence of two-byte records
//! `[value, count]`: decoding expands each record into `count` copies of
//! `value`, and encoding splits the input into maximal runs of one byte,
//! capping each emitted record at a count of 255 so that every run, however
//! long, round-trips exactly.

use vstd::prelude::*;

use crate::error::CompressionError;

verus! {

/// Length of the run of equal bytes at the front of `s` (0 when `s` is
/// empty).
pub open spec fn front_run(s: Seq<u8>) -> int
    decreases s.len(),
{
    if s.len() == 0 {
        0
    } else if s.len() >= 2 && s[1] == s[0] {
        1 + front_run(s.skip(1))
    } else {
        1
    }
}

/// The front run capped at 255, the largest count one record can carry.
pub open spec fn capped_run(s: Seq<u8>) -> int {
    if front_run(s) < 255 {
        front_run(s)
    } else {
        255
    }
}

/// The front run is between 1 and `s.len()`, covers only bytes equal to
/// `s[0]`, and is maximal: it ends at the end of `s` or at a differing byte.
pub proof fn lemma_front_run_spec(s: Seq<u8>)
    requires
        s.len() > 0,
    ensures
        1 <= front_run(s) <= s.len(),
        forall|j: int| 0 <= j < front_run(s) ==> #[trigger] s[j] == s[0],
        front_run(s) == s.len() || s[front_run(s)] != s[0],
    decreases s.len(),
{
    if s.len() >= 2 && s[1] == s[0] {
        lemma_front_run_spec(s.skip(1));
        let t = s.skip(1);
        assert(forall|j: int| 0 <= j < front_run(t) ==> #[trigger] t[j] == t[0]);
        assert(forall|j: int| 1 <= j < front_run(s) ==> #[trigger] s[j] == t[j - 1] && t[j - 1]
            == s[0]);
        if front_run(s) < s.len() {
            assert(s[front_run(s)] == t[front_run(t)]);
        }
    }
}

/// The RLE encoding of `d`: one `[value, count]` record per capped run.
pub open spec fn rle_encode(d: Seq<u8>) -> Seq<u8>
    decreases d.len(),
    via rle_encode_decreases
{
    if d.len() == 0 {
        Seq::empty()
    } else {
        seq![d[0], capped_run(d) as u8] + rle_encode(d.skip(capped_run(d)))
    }
}

#[via_fn]
proof fn rle_encode_decreases(d: Seq<u8>) {
    if d.len() > 0 {
        lemma_front_run_spec(d);
    }
}

/// The decoding of an RLE stream `s`: each record `[value, count]`
/// contributes `count` copies of `value`, in order.
pub open spec fn rle_decode(s: Seq<u8>) -> Seq<u8>
    decreases s.len(),
{
    if s.len() < 2 {
        Seq::empty()
    } else {
        Seq::new(s[1] as nat, |j: int| s[0]) + rle_decode(s.skip(2))
    }
}

/// A count `n` that covers equal bytes from the front of `s` and stops at a
/// run boundary (or at the 255 cap) is exactly the capped front run.
proof fn lemma_capped_run_is(s: Seq<u8>, n: int)
    requires
        s.len() > 0,
        1 <= n <= 255,
        n <= s.len(),
        forall|j: int| 0 <= j < n ==> #[trigger] s[j] == s[0],
        n == s.len() || n == 255 || s[n] != s[0],
    ensures
        capped_run(s) == n,
{
    lemma_front_run_spec(s);
    if front_run(s) < n {
        assert(s[front_run(s)] == s[0]);
    }
    if n < 255 && n < front_run(s) {
        assert(s[n] == s[0]);
    }
}

/// Decoding inverts encoding: an RLE stream produced by `rle_encode` is
/// well-formed (even length) and decodes to the original bytes.
pub proof fn lemma_rle_round_trip(d: Seq<u8>)
    ensures
        rle_encode(d).len() % 2 == 0,
        rle_decode(rle_encode(d)) == d,
    decreases d.len(),
{
    if d.len() == 0 {
        assert(rle_decode(rle_encode(d)) =~= d);
    } else {
        lemma_front_run_spec(d);
        let n = capped_run(d);
        let tail = d.skip(n);
        lemma_rle_round_trip(tail);
        let enc = rle_encode(d);
        assert(enc == seq![d[0], n as u8] + rle_encode(tail));
        assert(enc.skip(2) =~= rle_encode(tail));
        assert(enc[1] == n as u8);
        assert(n as u8 as nat == n as nat);
        assert(Seq::new(n as nat, |j: int| d[0]) =~= d.subrange(0, n));
        assert(rle_decode(enc) == d.subrange(0, n) + tail);
        assert(d.subrange(0, n) + tail =~= d);
    }
}

/// Compress `data` with run-length encoding.
///
/// Compression cannot fail: the result is always the RLE encoding of the
/// input. Runs longer than 255 bytes are split across several records, so
/// the encoding decodes back to `data` for every input.
pub fn compress_rle(data: &[u8]) -> (r: Result<Vec<u8>, CompressionError>)
    ensures
        r is Ok,
        r.unwrap()@ == rle_encode(data@),
{
    let mut out: Vec<u8> = Vec::new();
    let mut i: usize = 0;
    proof {
        assert(data@.skip(0) =~= data@);
        assert(out@ + rle_encode(data@) =~= rle_encode(data@));
    }
    while i < data.len()
        invariant
            i <= data.len(),
            rle_encode(data@) == out@ + rle_encode(data@.skip(i as int)),
        decreases data.len() - i,
    {
        let b = data[i];
        let mut count: usize = 1;
        while i + count < data.len() && count < 255 && data[i + count] == b
            invariant
                i < data.len(),
                b == data@[i as int],
                1 <= count <= 255,
                i + count <= data.len(),
                forall|j: int| i <= j < i + count ==> data@[j] == b,
            decreases data.len() - i - count,
        {
            count = count + 1;
        }
        proof {
            let s = data@.skip(i as int);
            assert(forall|j: int| 0 <= j < count ==> s[j] == data@[i + j] && data@[i + j] == b);
            lemma_capped_run_is(s, count as int);
            assert(s.skip(count as int) =~= data@.skip(i + count));
            assert(rle_encode(s) == seq![b, count as u8] + rle_encode(data@.skip(i + count)));
        }
        let ghost out0 = out@;
        out.push(b);
        out.push(count as u8);
        proof {
            assert(out@ =~= out0 + seq![b, count as u8]);
            assert(out@ + rle_encode(data@.skip(i + count)) =~= out0 + rle_encode(
                data@.skip(i as int),
            ));
        }
        i = i + count;
    }
    proof {
        assert(data@.skip(data@.len() as int) =~= Seq::<u8>::empty());
    }
    Ok(out)
}

/// Decompress an RLE stream.
///
/// Succeeds exactly on even-length input, returning its decoding; an
/// odd-length stream is rejected with `MalformedLength`.
pub fn decompress_rle(data: &[u8]) -> (r: Result<Vec<u8>, CompressionError>)
    ensures
        data@.len() % 2 == 0 ==> r is Ok && r.unwrap()@ == rle_decode(data@),
        data@.len() % 2 != 0 ==> r == Result::<Vec<u8>, CompressionError>::Err(
            CompressionError::MalformedLength { length: data@.len() as usize },
        ),
{
    if data.len() % 2 != 0 {
        return Err(CompressionError::MalformedLength { length: data.len() });
    }
    let mut out: Vec<u8> = Vec::new();
    let mut i: usize = 0;
    proof {
        assert(data@.skip(0) =~= data@);
        assert(out@ + rle_decode(data@) =~= rle_decode(data@));
    }
    while i < data.len()
        invariant
            i <= data.len(),
            i % 2 == 0,
            data.len() % 2 == 0,
            rle_decode(data@) == out@ + rle_decode(data@.skip(i as int)),
        decreases data.len() - i,
    {
        let b = data[i];
        let cnt = data[i + 1];
        proof {
            let s = data@.skip(i as int);
            assert(s[0] == b && s[1] == cnt);
            assert(s.skip(2) =~= data@.skip(i + 2));
            assert(rle_decode(s) == Seq::new(cnt as nat, |j: int| b) + rle_decode(
                data@.skip(i + 2),
            ));
        }
        let ghost out0 = out@;
        let mut k: usize = 0;
        while k < cnt as usize
            invariant
                k <= cnt as usize,
                out@ == out0 + Seq::new(k as nat, |j: int| b),
            decreases cnt as usize - k,
        {
            out.push(b);
            k = k + 1;
            proof {
                assert(out@ =~= out0 + Seq::new(k as nat, |j: int| b));
            }
        }
        proof {
            assert(out@ + rle_decode(data@.skip(i + 2)) =~= out0 + rle_decode(
                data@.skip(i as int),
            ));
        }
        i = i + 2;
    }
    proof {
        assert(data@.skip(data@.len() as int) =~= Seq::<u8>::empty());
    }
    Ok(out)
}

} // verus!
