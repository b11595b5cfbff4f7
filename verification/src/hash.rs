//! 256-bit hashes driving relocation target selection.
//!
//! The digest itself comes from an outside Keccak implementation; this module
//! names its result and computes, in verified code, the two readings the
//! protocol needs: the low 64 bits and the number of trailing zero bits.

use vstd::prelude::*;

verus! {

/// The 32-byte Keccak-256 digest of a byte sequence.
pub uninterp spec fn keccak256_of(input: Seq<u8>) -> Seq<u8>;

/// Relies on tiny_keccak's `Keccak::v256` hasher (`update` then `finalize`):
/// the 32-byte digest is a function of the input bytes alone.
#[verifier::external_body]
pub(crate) fn keccak256(input: &Vec<u8>) -> (r: Vec<u8>)
    ensures
        r@ == keccak256_of(input@),
        r@.len() == 32,
{
    let mut out = [0u8; 32];
    let mut hasher = tiny_keccak::Keccak::v256();
    tiny_keccak::Hasher::update(&mut hasher, input.as_slice());
    tiny_keccak::Hasher::finalize(hasher, &mut out);
    out.to_vec()
}

/// The little-endian bytes of a 64-bit value.
pub open spec fn u64_le_bytes(x: u64) -> Seq<u8> {
    seq![
        (x % 256) as u8,
        ((x / 256) % 256) as u8,
        ((x / 65536) % 256) as u8,
        ((x / 16777216) % 256) as u8,
        ((x / 4294967296) % 256) as u8,
        ((x / 1099511627776) % 256) as u8,
        ((x / 281474976710656) % 256) as u8,
        ((x / 72057594037927936) % 256) as u8,
    ]
}

/// Appends the little-endian bytes of `x`.
pub fn push_u64_le(out: &mut Vec<u8>, x: u64)
    ensures
        final(out)@ == old(out)@ + u64_le_bytes(x),
{
    out.push((x % 256) as u8);
    out.push(((x / 256) % 256) as u8);
    out.push(((x / 65536) % 256) as u8);
    out.push(((x / 16777216) % 256) as u8);
    out.push(((x / 4294967296) % 256) as u8);
    out.push(((x / 1099511627776) % 256) as u8);
    out.push(((x / 281474976710656) % 256) as u8);
    out.push(((x / 72057594037927936) % 256) as u8);
    proof {
        assert(out@ =~= old(out)@ + u64_le_bytes(x));
    }
}

/// The value of the first eight bytes read little-endian.
pub open spec fn low_u64_of(s: Seq<u8>) -> u64
    recommends
        s.len() >= 8,
{
    (s[0] + s[1] * 0x100 + s[2] * 0x1_0000 + s[3] * 0x100_0000 + s[4] * 0x1_0000_0000 + s[5]
        * 0x100_0000_0000 + s[6] * 0x1_0000_0000_0000 + s[7] * 0x100_0000_0000_0000) as u64
}

/// Trailing zero bits of one byte.
pub open spec fn u8_tz(b: u8) -> int {
    if b & 1 != 0 {
        0
    } else if b & 2 != 0 {
        1
    } else if b & 4 != 0 {
        2
    } else if b & 8 != 0 {
        3
    } else if b & 16 != 0 {
        4
    } else if b & 32 != 0 {
        5
    } else if b & 64 != 0 {
        6
    } else if b & 128 != 0 {
        7
    } else {
        8
    }
}

/// Trailing zero bits of a byte sequence read little-endian: bit 0 of the
/// first byte is the lowest bit of the value.
pub open spec fn tz_of(s: Seq<u8>) -> int
    decreases s.len(),
{
    if s.len() == 0 {
        0
    } else if s[0] == 0 {
        8 + tz_of(s.subrange(1, s.len() as int))
    } else {
        u8_tz(s[0])
    }
}

/// A 256-bit hash value.
#[derive(Clone, Debug)]
pub struct Digest {
    pub bytes: Vec<u8>,
}

impl Digest {
    /// Well-formed: exactly 32 bytes.
    pub open spec fn wf(self) -> bool {
        self.bytes@.len() == 32
    }

    /// A hash seeded from a 64-bit value: the digest of its bytes.
    pub fn from_u64(x: u64) -> (r: Digest)
        ensures
            r.bytes@ == keccak256_of(u64_le_bytes(x)),
            r.wf(),
    {
        let mut input: Vec<u8> = Vec::new();
        push_u64_le(&mut input, x);
        proof {
            assert(input@ =~= u64_le_bytes(x));
        }
        Digest { bytes: keccak256(&input) }
    }

    /// One rehashing step: the digest of the current value.
    pub fn rehash(&self) -> (r: Digest)
        ensures
            r.bytes@ == keccak256_of(self.bytes@),
            r.wf(),
    {
        Digest { bytes: keccak256(&self.bytes) }
    }

    /// The low 64 bits of the hash.
    pub fn to_u64(&self) -> (r: u64)
        requires
            self.wf(),
        ensures
            r == low_u64_of(self.bytes@),
    {
        let b = &self.bytes;
        (b[0] as u64) + (b[1] as u64) * 0x100 + (b[2] as u64) * 0x1_0000 + (b[3] as u64)
            * 0x100_0000 + (b[4] as u64) * 0x1_0000_0000 + (b[5] as u64) * 0x100_0000_0000 + (
        b[6] as u64) * 0x1_0000_0000_0000 + (b[7] as u64) * 0x100_0000_0000_0000
    }

    /// The number of trailing zero bits of the whole 256-bit value.
    pub fn trailing_zeros(&self) -> (r: u64)
        requires
            self.wf(),
        ensures
            r == tz_of(self.bytes@),
    {
        let mut i: usize = 0;
        let mut acc: u64 = 0;
        proof {
            assert(self.bytes@.subrange(0, 32) =~= self.bytes@);
        }
        while i < 32
            invariant
                self.wf(),
                i <= 32,
                acc == 8 * i,
                tz_of(self.bytes@) == acc + tz_of(self.bytes@.subrange(i as int, 32)),
            decreases 32 - i,
        {
            let b = self.bytes[i];
            proof {
                assert(self.bytes@.subrange(i as int, 32)[0] == self.bytes@[i as int]);
                assert(self.bytes@.subrange(i as int, 32).subrange(
                    1,
                    self.bytes@.subrange(i as int, 32).len() as int,
                ) =~= self.bytes@.subrange(i + 1, 32));
            }
            if b == 0 {
                acc = acc + 8;
                i = i + 1;
            } else {
                let tz: u64 = if b & 1 != 0 {
                    0
                } else if b & 2 != 0 {
                    1
                } else if b & 4 != 0 {
                    2
                } else if b & 8 != 0 {
                    3
                } else if b & 16 != 0 {
                    4
                } else if b & 32 != 0 {
                    5
                } else if b & 64 != 0 {
                    6
                } else if b & 128 != 0 {
                    7
                } else {
                    8
                };
                return acc + tz;
            }
        }
        proof {
            assert(tz_of(self.bytes@.subrange(32, 32)) == 0);
        }
        acc
    }
}

} // verus!
