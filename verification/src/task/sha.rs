//! A hasher that keys the ready queue by the SHA-256 digest of what it is fed.
use vstd::prelude::*;
use core::hash::{BuildHasher, Hasher};
use sha2::{Digest, Sha256};

verus! {

/// The SHA-256 digest of `data`, as the `sha2` crate computes it.
pub uninterp spec fn sha256_digest(data: Seq<u8>) -> Seq<u8>;

/// The 32-byte SHA-256 digest of `data`: `<sha2::Sha256 as Digest>::digest`.
#[verifier::external_body]
fn sha256(data: &[u8]) -> (digest: [u8; 32])
    ensures
        digest@ == sha256_digest(data@),
{
    let out = Sha256::digest(data);
    let mut digest = [0u8; 32];
    digest.copy_from_slice(&out);
    digest
}

/// The little-endian number of the first `i` bytes of `d`: byte `j` stands for `d[j] << 8j`.
pub open spec fn le_prefix(d: Seq<u8>, i: nat) -> int
    decreases i,
{
    if i == 0 {
        0
    } else {
        le_prefix(d, (i - 1) as nat) + (((d[i - 1] as u64) << (8 * (i - 1)) as u64) as int)
    }
}

/// A hasher fed with bytes whose digest is the SHA-256 of everything fed, read
/// as a little-endian `u64` from its first eight bytes.
pub struct Sha256Hasher {
    data: Vec<u8>,
}

impl View for Sha256Hasher {
    type V = Seq<u8>;

    closed spec fn view(&self) -> Seq<u8> {
        self.data@
    }
}

impl Sha256Hasher {
    /// A hasher that has been fed nothing.
    pub fn new() -> (r: Sha256Hasher)
        ensures
            r@ == Seq::<u8>::empty(),
    {
        Sha256Hasher { data: Vec::new() }
    }

    /// Feeds `bytes` to the hasher.
    pub fn feed(&mut self, bytes: &[u8])
        ensures
            final(self)@ == old(self)@ + bytes@,
    {
        let ghost old_data = self.data@;
        let mut i: usize = 0;
        while i < bytes.len()
            invariant
                i <= bytes@.len(),
                self.data@ == old_data + bytes@.subrange(0, i as int),
            decreases bytes@.len() - i,
        {
            self.data.push(bytes[i]);
            i = i + 1;
            assert(self.data@ =~= old_data + bytes@.subrange(0, i as int));
        }
        assert(bytes@.subrange(0, bytes@.len() as int) =~= bytes@);
    }

    /// The first eight bytes of the SHA-256 digest of everything fed, little-endian.
    pub fn digest_u64(&self) -> (r: u64)
        ensures
            r == le_prefix(sha256_digest(self@), 8),
    {
        let buf = sha256(self.data.as_slice());
        let b0 = buf[0] as u64;
        let mut res: u64 = b0;
        proof {
            assert(b0 << 0u64 == b0) by (bit_vector);
            assert(buf@[0] as u64 == b0);
            assert(le_prefix(buf@, 0) == 0);
            assert(le_prefix(buf@, 1) == le_prefix(buf@, 0) + (((buf@[0] as u64) << 0u64) as int));
            assert(res == le_prefix(buf@, 1));
            assert(b0 < (1u64 << 8u64)) by (bit_vector)
                requires
                    b0 < 256,
            ;
        }
        let mut i: usize = 1;
        while i < 8
            invariant
                1 <= i <= 8,
                buf@ == sha256_digest(self@),
                res == le_prefix(buf@, i as nat),
                i < 8 ==> res < (1u64 << (8 * i) as u64),
            decreases 8 - i,
        {
            let b = buf[i] as u64;
            let sh = (8 * i) as u64;
            proof {
                assert(b < 256);
                assert(sh <= 56);
                assert(res | (b << sh) == res + (b << sh)) by (bit_vector)
                    requires
                        res < (1u64 << sh),
                        b < 256,
                        sh <= 56,
                ;
                if i < 7 {
                    assert(res + (b << sh) < (1u64 << (sh + 8))) by (bit_vector)
                        requires
                            res < (1u64 << sh),
                            b < 256,
                            sh <= 48,
                    ;
                }
            }
            res = res | (b << sh);
            proof {
                assert(buf@[i as int] as u64 == b);
                assert(le_prefix(buf@, (i + 1) as nat) == le_prefix(buf@, i as nat) + (((buf@[i as int] as u64) << sh) as int));
            }
            i = i + 1;
        }
        res
    }
}

impl Hasher for Sha256Hasher {
    fn finish(&self) -> (r: u64)
        ensures
            r == le_prefix(sha256_digest(self@), 8),
    {
        self.digest_u64()
    }

    fn write(&mut self, bytes: &[u8])
        ensures
            final(self)@ == old(self)@ + bytes@,
    {
        self.feed(bytes);
    }
}

/// Builds hashers that have been fed nothing.
#[derive(Default)]
pub struct Sha256Builder();

impl BuildHasher for Sha256Builder {
    type Hasher = Sha256Hasher;

    fn build_hasher(&self) -> (r: Sha256Hasher)
        ensures
            r@ == Seq::<u8>::empty(),
    {
        Sha256Hasher::new()
    }
}

} // verus!
