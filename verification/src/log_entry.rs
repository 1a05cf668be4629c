//! A single log entry: an originating address, a list of topics and opaque
//! data, together with the 2048-bit bloom filter that indexes it.

use vstd::prelude::*;

use crate::hash::{keccak, keccak256, H256};

verus! {

/// A 160-bit account address.
#[derive(Clone, Debug)]
pub struct Address {
    bytes: Vec<u8>,
}

impl View for Address {
    type V = Seq<u8>;

    closed spec fn view(&self) -> Seq<u8> {
        self.bytes@
    }
}

impl Address {
    /// A well-formed address holds exactly 20 bytes.
    pub open spec fn wf(&self) -> bool {
        self@.len() == 20
    }

    /// Build an address from its raw bytes; rejects any length other than 20.
    pub fn from_bytes(bytes: Vec<u8>) -> (r: Option<Address>)
        ensures
            bytes@.len() == 20 ==> (r matches Some(a) && a.wf() && a@ == bytes@),
            bytes@.len() != 20 ==> r is None,
    {
        if bytes.len() == 20 {
            Some(Address { bytes })
        } else {
            None
        }
    }

    /// The raw bytes of the address.
    pub fn as_bytes(&self) -> (r: &Vec<u8>)
        ensures
            r@ == self@,
    {
        &self.bytes
    }
}

/// The all-zero 2048-bit bloom.
pub open spec fn spec_zero_bloom() -> Seq<u8> {
    Seq::new(256, |i: int| 0u8)
}

/// One bloom probe: a big-endian pair of digest bytes, reduced to a bit
/// position within 2048.
pub open spec fn spec_probe_index(hi: u8, lo: u8) -> int {
    (hi as int * 256 + lo as int) % 2048
}

/// The bloom with bit `idx` set: bit positions count up from the lowest bit
/// of the last byte.
pub open spec fn spec_set_bit(bits: Seq<u8>, idx: int) -> Seq<u8>
    recommends
        bits.len() == 256,
        0 <= idx < 2048,
{
    bits.update(255 - idx / 8, bits[255 - idx / 8] | (1u8 << ((idx % 8) as u8)))
}

/// The bloom `bits` with the three probes of digest `h` set.
pub open spec fn spec_accrue(bits: Seq<u8>, h: Seq<u8>) -> Seq<u8>
    recommends
        bits.len() == 256,
        h.len() >= 6,
{
    spec_set_bit(
        spec_set_bit(
            spec_set_bit(bits, spec_probe_index(h[0], h[1])),
            spec_probe_index(h[2], h[3]),
        ),
        spec_probe_index(h[4], h[5]),
    )
}

/// The bloom of a log entry: the digest of its address and the digest of
/// each topic, accrued in order into an empty bloom.
pub open spec fn spec_bloom_of(addr: Seq<u8>, topics: Seq<Seq<u8>>) -> Seq<u8>
    decreases topics.len(),
{
    if topics.len() == 0 {
        spec_accrue(spec_zero_bloom(), keccak256(addr))
    } else {
        spec_accrue(spec_bloom_of(addr, topics.drop_last()), keccak256(topics.last()))
    }
}

/// The hash bytes of each topic, in order.
pub open spec fn spec_topics_view(ts: Seq<H256>) -> Seq<Seq<u8>> {
    Seq::new(ts.len(), |i: int| ts[i]@)
}

/// A 2048-bit bloom filter.
#[derive(Clone, Debug)]
pub struct LogBloom {
    bits: Vec<u8>,
}

impl View for LogBloom {
    type V = Seq<u8>;

    closed spec fn view(&self) -> Seq<u8> {
        self.bits@
    }
}

impl LogBloom {
    /// A well-formed bloom holds exactly 256 bytes.
    pub open spec fn wf(&self) -> bool {
        self@.len() == 256
    }

    /// The empty bloom.
    pub fn zero() -> (r: LogBloom)
        ensures
            r.wf(),
            r@ == spec_zero_bloom(),
    {
        let mut bits: Vec<u8> = Vec::new();
        let mut i: usize = 0;
        while i < 256
            invariant
                i <= 256,
                bits@ =~= Seq::new(i as nat, |j: int| 0u8),
            decreases 256 - i,
        {
            bits.push(0u8);
            i = i + 1;
        }
        proof {
            assert(bits@ =~= spec_zero_bloom());
        }
        LogBloom { bits }
    }

    /// Build a bloom from its raw bytes; rejects any length other than 256.
    pub fn from_bytes(bytes: Vec<u8>) -> (r: Option<LogBloom>)
        ensures
            bytes@.len() == 256 ==> (r matches Some(b) && b.wf() && b@ == bytes@),
            bytes@.len() != 256 ==> r is None,
    {
        if bytes.len() == 256 {
            Some(LogBloom { bits: bytes })
        } else {
            None
        }
    }

    /// The raw bytes of the bloom.
    pub fn as_bytes(&self) -> (r: &Vec<u8>)
        ensures
            r@ == self@,
    {
        &self.bits
    }

    /// Set the bit one probe of a digest names.
    fn set_probe(&mut self, hi: u8, lo: u8)
        requires
            old(self).wf(),
        ensures
            final(self).wf(),
            final(self)@ == spec_set_bit(old(self)@, spec_probe_index(hi, lo)),
    {
        let idx: usize = ((hi as usize) * 256 + (lo as usize)) % 2048;
        proof {
            assert(idx == spec_probe_index(hi, lo));
        }
        let pos: usize = 255 - idx / 8;
        let bit: u8 = (idx % 8) as u8;
        let b = self.bits[pos];
        let nb = b | (1u8 << bit);
        vstd::pervasive::VecAdditionalExecFns::set(&mut self.bits, pos, nb);
        proof {
            assert(self@ =~= spec_set_bit(old(self)@, spec_probe_index(hi, lo)));
        }
    }

    /// Fold the three probes of digest `h` into the bloom.
    pub fn accrue(&mut self, h: &H256)
        requires
            old(self).wf(),
            h.wf(),
        ensures
            final(self).wf(),
            final(self)@ == spec_accrue(old(self)@, h@),
    {
        let hb = h.as_bytes();
        let b0 = hb[0];
        let b1 = hb[1];
        let b2 = hb[2];
        let b3 = hb[3];
        let b4 = hb[4];
        let b5 = hb[5];
        self.set_probe(b0, b1);
        self.set_probe(b2, b3);
        self.set_probe(b4, b5);
    }
}

/// A single log entry.
#[derive(Clone, Debug)]
pub struct LogEntry {
    /// The address of the contract the log originates from.
    pub address: Address,
    /// The indexed topics of the log.
    pub topics: Vec<H256>,
    /// The unindexed data of the log.
    pub data: Vec<u8>,
}

impl LogEntry {
    /// Well-formed: the address and every topic have their fixed sizes.
    pub open spec fn wf(&self) -> bool {
        self.address.wf() && forall|i: int|
            0 <= i < self.topics@.len() ==> (#[trigger] self.topics@[i]).wf()
    }

    /// Create a new log entry.
    pub fn new(address: Address, topics: Vec<H256>, data: Vec<u8>) -> (r: LogEntry)
        ensures
            r.address == address,
            r.topics == topics,
            r.data == data,
    {
        LogEntry { address, topics, data }
    }

    /// Returns a reference to the address.
    pub fn address(&self) -> (r: &Address)
        ensures
            *r == self.address,
    {
        &self.address
    }

    /// Returns a reference to the topics.
    pub fn topics(&self) -> (r: &Vec<H256>)
        ensures
            *r == self.topics,
    {
        &self.topics
    }

    /// Returns a reference to the data.
    pub fn data(&self) -> (r: &Vec<u8>)
        ensures
            *r == self.data,
    {
        &self.data
    }

    /// Calculates the bloom of this log entry: the digests of the address and
    /// of every topic, accrued in order.
    pub fn bloom(&self) -> (r: LogBloom)
        requires
            self.wf(),
        ensures
            r.wf(),
            r@ == spec_bloom_of(self.address@, spec_topics_view(self.topics@)),
    {
        let mut b = LogBloom::zero();
        let ah = keccak(self.address.as_bytes().as_slice());
        b.accrue(&ah);
        let n = self.topics.len();
        let mut i: usize = 0;
        proof {
            assert(spec_topics_view(self.topics@).take(0) =~= Seq::<Seq<u8>>::empty());
            assert(b@ == spec_bloom_of(self.address@, spec_topics_view(self.topics@).take(0)));
        }
        while i < n
            invariant
                n == self.topics@.len(),
                i <= n,
                b.wf(),
                self.wf(),
                b@ == spec_bloom_of(self.address@, spec_topics_view(self.topics@).take(i as int)),
            decreases n - i,
        {
            let t = &self.topics[i];
            let th = keccak(t.as_bytes().as_slice());
            b.accrue(&th);
            proof {
                assert(spec_topics_view(self.topics@).take(i + 1).drop_last() =~= spec_topics_view(
                    self.topics@,
                ).take(i as int));
                assert(spec_topics_view(self.topics@).take(i + 1).last() == self.topics@[i as int]@);
            }
            i = i + 1;
        }
        proof {
            assert(spec_topics_view(self.topics@).take(n as int) =~= spec_topics_view(
                self.topics@,
            ));
        }
        b
    }
}

} // verus!
