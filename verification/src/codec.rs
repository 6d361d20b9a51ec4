//! The self-describing binary encoding used inside a sorted-run file: a
//! fixed-width little-endian `u64` for the header record count, and a
//! length-prefixed byte string for each key and value. The actual byte work
//! is done by bincode; its behaviour is pinned down here byte for byte.

use vstd::prelude::*;

verus! {

/// The eight little-endian bytes of a `u64`.
pub open spec fn u64_le_bytes(x: u64) -> Seq<u8> {
    seq![
        (x & 0xff) as u8,
        ((x >> 8) & 0xff) as u8,
        ((x >> 16) & 0xff) as u8,
        ((x >> 24) & 0xff) as u8,
        ((x >> 32) & 0xff) as u8,
        ((x >> 40) & 0xff) as u8,
        ((x >> 48) & 0xff) as u8,
        ((x >> 56) & 0xff) as u8,
    ]
}

/// The `u64` read back from eight little-endian bytes.
pub open spec fn le_bytes_u64(b: Seq<u8>) -> u64
    recommends
        b.len() == 8,
{
    ((b[0] as u64) | ((b[1] as u64) << 8) | ((b[2] as u64) << 16) | ((b[3] as u64) << 24) | (
    (b[4] as u64) << 32) | ((b[5] as u64) << 40) | ((b[6] as u64) << 48) | ((b[7] as u64) << 56))
}

/// Writing a `u64` and reading it back yields the same value.
pub proof fn lemma_u64_le_round_trip(x: u64)
    ensures
        u64_le_bytes(x).len() == 8,
        le_bytes_u64(u64_le_bytes(x)) == x,
{
    assert((((x & 0xff) as u8) as u64) | ((((x >> 8) & 0xff) as u8) as u64) << 8 | ((((x >> 16)
        & 0xff) as u8) as u64) << 16 | ((((x >> 24) & 0xff) as u8) as u64) << 24 | ((((x >> 32)
        & 0xff) as u8) as u64) << 32 | ((((x >> 40) & 0xff) as u8) as u64) << 40 | ((((x >> 48)
        & 0xff) as u8) as u64) << 48 | ((((x >> 56) & 0xff) as u8) as u64) << 56 == x)
        by (bit_vector);
}

/// The encoding of a byte string: a little-endian `u64` length prefix
/// followed by the bytes themselves.
pub open spec fn framed(b: Seq<u8>) -> Seq<u8>
    recommends
        b.len() <= u64::MAX,
{
    u64_le_bytes(b.len() as u64) + b
}

/// Whether a framed byte string starts at `pos` in `data`: a full length
/// prefix is present and the length it announces fits in what remains.
pub open spec fn frame_ok(data: Seq<u8>, pos: int) -> bool {
    &&& 0 <= pos
    &&& pos + 8 <= data.len()
    &&& pos + 8 + le_bytes_u64(data.subrange(pos, pos + 8)) <= data.len()
}

/// The payload of the framed byte string starting at `pos`.
pub open spec fn frame_payload(data: Seq<u8>, pos: int) -> Seq<u8>
    recommends
        frame_ok(data, pos),
{
    data.subrange(pos + 8, pos + 8 + le_bytes_u64(data.subrange(pos, pos + 8)))
}

/// The position just past the framed byte string starting at `pos`.
pub open spec fn frame_end(data: Seq<u8>, pos: int) -> int
    recommends
        frame_ok(data, pos),
{
    pos + 8 + le_bytes_u64(data.subrange(pos, pos + 8))
}

/// Where `data` carries `framed(b)` at `pos`, decoding there succeeds and
/// yields exactly `b`, ending just past it.
pub proof fn lemma_decode_framed(data: Seq<u8>, pos: int, b: Seq<u8>)
    requires
        0 <= pos,
        b.len() <= u64::MAX,
        pos + 8 + b.len() <= data.len(),
        data.subrange(pos, pos + 8 + b.len()) == framed(b),
    ensures
        frame_ok(data, pos),
        frame_payload(data, pos) == b,
        frame_end(data, pos) == pos + 8 + b.len(),
{
    lemma_u64_le_round_trip(b.len() as u64);
    let whole = data.subrange(pos, pos + 8 + b.len());
    assert(data.subrange(pos, pos + 8) =~= whole.subrange(0, 8));
    assert(whole.subrange(0, 8) =~= u64_le_bytes(b.len() as u64));
    assert(le_bytes_u64(data.subrange(pos, pos + 8)) == b.len());
    assert(data.subrange(pos + 8, pos + 8 + b.len()) =~= whole.subrange(8, 8 + b.len() as int));
    assert(whole.subrange(8, 8 + b.len() as int) =~= b);
}

/// Copies a byte vector.
pub(crate) fn clone_bytes(v: &Vec<u8>) -> (r: Vec<u8>)
    ensures
        r@ == v@,
{
    let r = v.clone();
    proof {
        assert(r@ =~= v@);
    }
    r
}

/// Relies on bincode::serialize with its default configuration: a `u64`
/// becomes its eight bytes, little-endian, and serializing it cannot fail.
#[verifier::external_body]
pub(crate) fn encode_u64(x: u64) -> (r: Vec<u8>)
    ensures
        r@ == u64_le_bytes(x),
{
    match bincode::serialize(&x) {
        Ok(v) => v,
        Err(_) => Vec::new(),
    }
}

/// Relies on bincode::serialize with its default configuration: a byte vector
/// becomes a little-endian `u64` length prefix followed by its bytes, and
/// serializing it cannot fail.
#[verifier::external_body]
pub(crate) fn encode_bytes(b: &Vec<u8>) -> (r: Vec<u8>)
    ensures
        r@ == framed(b@),
{
    match bincode::serialize(b) {
        Ok(v) => v,
        Err(_) => Vec::new(),
    }
}

/// Relies on bincode::deserialize_from with its default configuration:
/// reading a `u64` consumes exactly eight little-endian bytes, and fails
/// precisely when fewer than eight remain.
#[verifier::external_body]
pub(crate) fn decode_u64(data: &Vec<u8>, pos: usize) -> (r: Option<(u64, usize)>)
    requires
        pos <= data@.len(),
    ensures
        match r {
            Some(p) => pos + 8 <= data@.len() && p.0 == le_bytes_u64(
                data@.subrange(pos as int, pos + 8),
            ) && p.1 == pos + 8,
            None => pos + 8 > data@.len(),
        },
{
    let mut cur = std::io::Cursor::new(&data[pos..]);
    match bincode::deserialize_from::<_, u64>(&mut cur) {
        Ok(x) => Some((x, pos + cur.position() as usize)),
        Err(_) => None,
    }
}

/// Relies on bincode::deserialize_from with its default configuration:
/// reading a byte vector consumes a little-endian `u64` length prefix and
/// then exactly that many bytes, and fails precisely when the remaining
/// input is shorter than that.
#[verifier::external_body]
pub(crate) fn decode_bytes(data: &Vec<u8>, pos: usize) -> (r: Option<(Vec<u8>, usize)>)
    requires
        pos <= data@.len(),
    ensures
        match r {
            Some(p) => frame_ok(data@, pos as int) && p.0@ == frame_payload(data@, pos as int)
                && p.1 == frame_end(data@, pos as int),
            None => !frame_ok(data@, pos as int),
        },
{
    let mut cur = std::io::Cursor::new(&data[pos..]);
    match bincode::deserialize_from::<_, Vec<u8>>(&mut cur) {
        Ok(v) => Some((v, pos + cur.position() as usize)),
        Err(_) => None,
    }
}

} // verus!
