//! Fixed-size hash values and the content-hash function used to address
//! stored payloads.

use tiny_keccak::Hasher;
use vstd::prelude::*;

verus! {

/// The 256-bit Keccak digest of a byte string. Stated abstractly: the digest
/// depends on the input bytes alone, and its exact value is left to the
/// outside implementation.
pub uninterp spec fn keccak256(data: Seq<u8>) -> Seq<u8>;

/// A 256-bit value, used as the content hash of a stored payload.
#[derive(Clone, Debug)]
pub struct H256 {
    bytes: Vec<u8>,
}

impl View for H256 {
    type V = Seq<u8>;

    closed spec fn view(&self) -> Seq<u8> {
        self.bytes@
    }
}

impl H256 {
    /// A well-formed hash holds exactly 32 bytes.
    pub open spec fn wf(&self) -> bool {
        self@.len() == 32
    }

    /// Build a hash from its raw bytes; rejects any length other than 32.
    pub fn from_bytes(bytes: Vec<u8>) -> (r: Option<H256>)
        ensures
            bytes@.len() == 32 ==> (r matches Some(h) && h.wf() && h@ == bytes@),
            bytes@.len() != 32 ==> r is None,
    {
        if bytes.len() == 32 {
            Some(H256 { bytes })
        } else {
            None
        }
    }

    /// A hash whose 32 bytes all hold the same value; handy as a test key.
    pub fn repeat_byte(b: u8) -> (r: H256)
        ensures
            r.wf(),
            r@ == Seq::new(32, |i: int| b),
    {
        let mut bytes: Vec<u8> = Vec::new();
        let mut i: usize = 0;
        while i < 32
            invariant
                i <= 32,
                bytes@ =~= Seq::new(i as nat, |j: int| b),
            decreases 32 - i,
        {
            bytes.push(b);
            i = i + 1;
        }
        proof {
            assert(bytes@ =~= Seq::new(32, |i: int| b));
        }
        H256 { bytes }
    }

    /// The raw bytes of the hash.
    pub fn as_bytes(&self) -> (r: &Vec<u8>)
        ensures
            r@ == self@,
    {
        &self.bytes
    }

    /// An owned copy of the raw bytes.
    pub fn to_vec(&self) -> (r: Vec<u8>)
        ensures
            r@ == self@,
    {
        self.bytes.clone()
    }
}

/// Relies on tiny_keccak's Keccak-256: the digest is 32 bytes and is a
/// function of the input bytes alone.
#[verifier::external_body]
fn keccak256_raw(data: &[u8]) -> (r: Vec<u8>)
    ensures
        r@ == keccak256(data@),
        r@.len() == 32,
{
    let mut hasher = tiny_keccak::Keccak::v256();
    hasher.update(data);
    let mut out = [0u8; 32];
    hasher.finalize(&mut out);
    out.to_vec()
}

/// The content hash of a byte string.
pub fn keccak(data: &[u8]) -> (r: H256)
    ensures
        r.wf(),
        r@ == keccak256(data@),
{
    H256 { bytes: keccak256_raw(data) }
}

} // verus!
