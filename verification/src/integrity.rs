//! Deriving expected payload bytes from a key.
//!
//! The verification driver checks retrieved content against a byte
//! pattern derived deterministically from the key alone: the key's
//! 128 bits, placed big-endian in the lower half of a 32-byte seed,
//! seed a secondary pseudo-random stream whose first `size` bytes are
//! the expected payload.

use rand::RngCore;
use rand::SeedableRng;
use vstd::prelude::*;

verus! {

/// The byte stream that a pseudo-random generator built from the given
/// 32-byte seed produces, cut to the given length.
pub uninterp spec fn stream_bytes(seed: Seq<u8>, len: usize) -> Seq<u8>;

/// Relies on rand's `StdRng::from_seed` and `RngCore::fill_bytes`: the
/// bytes filled into a fresh buffer are a function of the 32-byte seed
/// and of the buffer's length alone, and exactly `size` bytes come back.
#[verifier::external_body]
fn fill_stream_bytes(seed: &Vec<u8>, size: usize) -> (r: Vec<u8>)
    requires
        seed@.len() == 32,
    ensures
        r@ == stream_bytes(seed@, size),
        r@.len() == size,
{
    let mut arr = [0u8; 32];
    arr.copy_from_slice(seed.as_slice());
    let mut rng = rand::rngs::StdRng::from_seed(arr);
    let mut v = vec![0u8; size];
    rng.fill_bytes(&mut v);
    v
}

/// Byte `j` (0 is most significant) of the key's big-endian form.
pub open spec fn be_byte(key: u128, j: int) -> u8 {
    (key >> (((15 - j) * 8) as u128)) as u8
}

/// The 32-byte seed derived from a key: 16 zero bytes, then the key's
/// 16 bytes, big-endian.
pub open spec fn key_seed_bytes(key: u128) -> Seq<u8> {
    Seq::new(
        32,
        |i: int|
            if i < 16 {
                0u8
            } else {
                be_byte(key, i - 16)
            },
    )
}

/// The expected payload of the given size for a key: the stream bytes of
/// the seed derived from the key.
pub fn lumpid_to_bytes(lumpid: u128, size: usize) -> (r: Vec<u8>)
    ensures
        r@ == stream_bytes(key_seed_bytes(lumpid), size),
        r@.len() == size,
{
    let mut seed: Vec<u8> = Vec::new();
    let mut i: usize = 0;
    while i < 16
        invariant
            i <= 16,
            seed@.len() == i,
            forall|k: int| 0 <= k < i ==> seed@[k] == 0u8,
        decreases 16 - i,
    {
        seed.push(0);
        i = i + 1;
    }
    let mut j: usize = 0;
    while j < 16
        invariant
            j <= 16,
            seed@.len() == 16 + j,
            forall|k: int| 0 <= k < 16 ==> seed@[k] == 0u8,
            forall|k: int| 0 <= k < j ==> seed@[16 + k] == be_byte(lumpid, k),
        decreases 16 - j,
    {
        let sh: u128 = ((15 - j) * 8) as u128;
        seed.push((lumpid >> sh) as u8);
        j = j + 1;
    }
    proof {
        assert(seed@ =~= key_seed_bytes(lumpid));
    }
    fill_stream_bytes(&seed, size)
}

/// Whether retrieved content matches the expected payload for a key of
/// the given simulated size.
pub fn data_matches(lumpid: u128, size: usize, data: &[u8]) -> (r: bool)
    ensures
        r == (data@ == stream_bytes(key_seed_bytes(lumpid), size)),
{
    let expected = lumpid_to_bytes(lumpid, size);
    if data.len() != expected.len() {
        proof {
            assert(data@ != stream_bytes(key_seed_bytes(lumpid), size));
        }
        return false;
    }
    let n = data.len();
    let mut i: usize = 0;
    while i < n
        invariant
            i <= n,
            n == data@.len(),
            n == expected@.len(),
            expected@ == stream_bytes(key_seed_bytes(lumpid), size),
            forall|k: int| 0 <= k < i ==> data@[k] == expected@[k],
        decreases n - i,
    {
        if data[i] != expected[i] {
            proof {
                assert(data@ != stream_bytes(key_seed_bytes(lumpid), size));
            }
            return false;
        }
        i = i + 1;
    }
    proof {
        assert(data@ =~= expected@);
    }
    true
}

} // verus!
