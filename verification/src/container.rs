//! Byte framing for the multi-file archive container: little-endian `u32`
//! length fields, and one archive entry as `[name length][name bytes]
//! [payload length][payload bytes]`. Reading and writing the archive file is
//! the caller's business; this module owns the wire layout.

use vstd::prelude::*;

verus! {

/// The four little-endian bytes of `n`.
pub open spec fn u32_le_bytes(n: u32) -> Seq<u8> {
    seq![
        (n & 0xff) as u8,
        ((n >> 8) & 0xff) as u8,
        ((n >> 16) & 0xff) as u8,
        ((n >> 24) & 0xff) as u8,
    ]
}

/// Serialize `n` as four little-endian bytes.
pub fn u32_to_le(n: u32) -> (r: Vec<u8>)
    ensures
        r@ == u32_le_bytes(n),
{
    let mut r: Vec<u8> = Vec::new();
    r.push((n & 0xff) as u8);
    r.push(((n >> 8) & 0xff) as u8);
    r.push(((n >> 16) & 0xff) as u8);
    r.push(((n >> 24) & 0xff) as u8);
    proof {
        assert(r@ =~= u32_le_bytes(n));
    }
    r
}

/// Read a `u32` from four little-endian bytes; the unique value whose
/// serialization is those bytes.
pub fn u32_from_le(b: &[u8]) -> (r: u32)
    requires
        b@.len() == 4,
    ensures
        u32_le_bytes(r) == b@,
{
    let b0 = b[0];
    let b1 = b[1];
    let b2 = b[2];
    let b3 = b[3];
    let r = b0 as u32 | ((b1 as u32) << 8) | ((b2 as u32) << 16) | ((b3 as u32) << 24);
    proof {
        assert((b0 as u32 | ((b1 as u32) << 8) | ((b2 as u32) << 16) | ((b3 as u32) << 24))
            & 0xff == b0 as u32) by (bit_vector);
        assert(((b0 as u32 | ((b1 as u32) << 8) | ((b2 as u32) << 16) | ((b3 as u32) << 24)) >> 8)
            & 0xff == b1 as u32) by (bit_vector);
        assert(((b0 as u32 | ((b1 as u32) << 8) | ((b2 as u32) << 16) | ((b3 as u32) << 24)) >> 16)
            & 0xff == b2 as u32) by (bit_vector);
        assert(((b0 as u32 | ((b1 as u32) << 8) | ((b2 as u32) << 16) | ((b3 as u32) << 24)) >> 24)
            & 0xff == b3 as u32) by (bit_vector);
        assert(u32_le_bytes(r) =~= b@);
    }
    r
}

/// Frame one archive entry: the file name and its compressed payload, each
/// preceded by its little-endian length.
pub fn frame_entry(name: &Vec<u8>, payload: &Vec<u8>) -> (r: Vec<u8>)
    requires
        name@.len() <= u32::MAX,
        payload@.len() <= u32::MAX,
    ensures
        r@ == u32_le_bytes(name@.len() as u32) + name@ + u32_le_bytes(payload@.len() as u32)
            + payload@,
{
    let mut r = u32_to_le(name.len() as u32);
    let mut k: usize = 0;
    let ghost r0 = r@;
    while k < name.len()
        invariant
            k <= name@.len(),
            r@ == r0 + name@.subrange(0, k as int),
        decreases name@.len() - k,
    {
        r.push(name[k]);
        k = k + 1;
        proof {
            assert(r@ =~= r0 + name@.subrange(0, k as int));
        }
    }
    proof {
        assert(name@.subrange(0, name@.len() as int) =~= name@);
    }
    let len_bytes = u32_to_le(payload.len() as u32);
    r.push(len_bytes[0]);
    r.push(len_bytes[1]);
    r.push(len_bytes[2]);
    r.push(len_bytes[3]);
    let ghost r1 = r@;
    let mut k2: usize = 0;
    while k2 < payload.len()
        invariant
            k2 <= payload@.len(),
            r@ == r1 + payload@.subrange(0, k2 as int),
        decreases payload@.len() - k2,
    {
        r.push(payload[k2]);
        k2 = k2 + 1;
        proof {
            assert(r@ =~= r1 + payload@.subrange(0, k2 as int));
        }
    }
    proof {
        assert(payload@.subrange(0, payload@.len() as int) =~= payload@);
        assert(r1 =~= u32_le_bytes(name@.len() as u32) + name@ + u32_le_bytes(
            payload@.len() as u32,
        ));
        assert(r@ =~= u32_le_bytes(name@.len() as u32) + name@ + u32_le_bytes(
            payload@.len() as u32,
        ) + payload@);
    }
    r
}

} // verus!
