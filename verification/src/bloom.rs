//! The 2048-bit logs bloom: three bits per item, indexed by the
//! item's Keccak-256 digest; a block's bloom is the bitwise or of its
//! receipts' blooms.

use vstd::prelude::*;
use crate::crypto::keccak_of;
use crate::types::{Log, LogV, ReceiptV, wf_bloom};

verus! {

/// The empty bloom.
pub open spec fn zero_bloom_sp() -> Seq<u8> {
    Seq::new(256, |i: int| 0u8)
}

/// Bitwise or of two blooms.
pub open spec fn bloom_or_sp(a: Seq<u8>, b: Seq<u8>) -> Seq<u8> {
    Seq::new(256, |i: int| a[i] | b[i])
}

/// Set bit `b` of the bloom, counting from its low-order end.
pub open spec fn bloom_set_bit_sp(s: Seq<u8>, b: nat) -> Seq<u8> {
    let byte = 255 - b / 8;
    s.update(byte as int, s[byte as int] | (1u8 << (b % 8) as u8))
}

/// The bloom bit an item's digest pair selects.
pub open spec fn bloom_bit_sp(h: Seq<u8>, k: int) -> nat {
    (((h[2 * k] as nat) % 8) * 256 + h[2 * k + 1]) as nat
}

/// Add one item: set the three bits its digest selects.
pub open spec fn bloom_add_sp(s: Seq<u8>, item: Seq<u8>) -> Seq<u8> {
    let h = keccak_of(item);
    bloom_set_bit_sp(
        bloom_set_bit_sp(bloom_set_bit_sp(s, bloom_bit_sp(h, 0)), bloom_bit_sp(h, 1)),
        bloom_bit_sp(h, 2),
    )
}

/// The bloom of one log: its address and all its topics.
pub open spec fn bloom_topics_sp(s: Seq<u8>, topics: Seq<Seq<u8>>) -> Seq<u8>
    decreases topics.len(),
{
    if topics.len() == 0 {
        s
    } else {
        bloom_add_sp(bloom_topics_sp(s, topics.drop_last()), topics.last())
    }
}

pub open spec fn log_bloom_sp(l: LogV) -> Seq<u8> {
    bloom_topics_sp(bloom_add_sp(zero_bloom_sp(), l.address), l.topics)
}

/// The or of a series of receipts' blooms: a block's bloom.
pub open spec fn blooms_or_sp(rs: Seq<ReceiptV>) -> Seq<u8>
    decreases rs.len(),
{
    if rs.len() == 0 {
        zero_bloom_sp()
    } else {
        bloom_or_sp(blooms_or_sp(rs.drop_last()), rs.last().logs_bloom)
    }
}

/// A fresh, empty bloom.
pub fn zero_bloom() -> (r: Vec<u8>)
    ensures
        r@ == zero_bloom_sp(),
        wf_bloom(r@),
{
    let mut r: Vec<u8> = Vec::new();
    let mut i: usize = 0;
    while i < 256
        invariant
            i <= 256,
            r@.len() == i,
            forall|j: int| 0 <= j < i ==> r@[j] == 0u8,
        decreases 256 - i,
    {
        r.push(0);
        i = i + 1;
    }
    proof {
        assert(r@ =~= zero_bloom_sp());
    }
    r
}

/// Bitwise or of two blooms.
pub fn bloom_or(a: &Vec<u8>, b: &Vec<u8>) -> (r: Vec<u8>)
    requires
        wf_bloom(a@),
        wf_bloom(b@),
    ensures
        r@ == bloom_or_sp(a@, b@),
        wf_bloom(r@),
{
    let mut r: Vec<u8> = Vec::new();
    let mut i: usize = 0;
    while i < 256
        invariant
            wf_bloom(a@),
            wf_bloom(b@),
            i <= 256,
            r@.len() == i,
            forall|j: int| 0 <= j < i ==> r@[j] == (a@[j] | b@[j]),
        decreases 256 - i,
    {
        r.push(a[i] | b[i]);
        i = i + 1;
    }
    proof {
        assert(r@ =~= bloom_or_sp(a@, b@));
    }
    r
}

/// Set one bit, counting from the low-order end.
fn bloom_set_bit(s: &mut Vec<u8>, b: u16)
    requires
        wf_bloom(old(s)@),
        b < 2048,
    ensures
        final(s)@ == bloom_set_bit_sp(old(s)@, b as nat),
        wf_bloom(final(s)@),
{
    let byte: usize = 255 - (b / 8) as usize;
    let mask: u8 = 1u8 << (b % 8) as u8;
    let v = s[byte] | mask;
    s.set(byte, v);
}

/// Add one item to the bloom.
pub fn bloom_add(s: &mut Vec<u8>, item: &[u8])
    requires
        wf_bloom(old(s)@),
    ensures
        final(s)@ == bloom_add_sp(old(s)@, item@),
        wf_bloom(final(s)@),
{
    let h = crate::crypto::keccak(item);
    let b0: u16 = ((h[0] as u16) % 8) * 256 + h[1] as u16;
    let b1: u16 = ((h[2] as u16) % 8) * 256 + h[3] as u16;
    let b2: u16 = ((h[4] as u16) % 8) * 256 + h[5] as u16;
    proof {
        assert(b0 == bloom_bit_sp(h@, 0) && b0 < 2048);
        assert(b1 == bloom_bit_sp(h@, 1) && b1 < 2048);
        assert(b2 == bloom_bit_sp(h@, 2) && b2 < 2048);
    }
    bloom_set_bit(s, b0);
    bloom_set_bit(s, b1);
    bloom_set_bit(s, b2);
}

impl Log {
    /// The bloom of this log alone.
    pub fn bloom(&self) -> (r: Vec<u8>)
        ensures
            r@ == log_bloom_sp(self@),
            wf_bloom(r@),
    {
        let mut s = zero_bloom();
        bloom_add(&mut s, self.address.as_slice());
        let mut i: usize = 0;
        while i < self.topics.len()
            invariant
                i <= self.topics@.len(),
                wf_bloom(s@),
                s@ == bloom_topics_sp(
                    bloom_add_sp(zero_bloom_sp(), self.address@),
                    self@.topics.take(i as int),
                ),
            decreases self.topics@.len() - i,
        {
            bloom_add(&mut s, self.topics[i].as_slice());
            proof {
                let ts = self@.topics;
                assert(ts.take(i + 1).drop_last() =~= ts.take(i as int));
                assert(ts.take(i + 1).last() == ts[i as int]);
            }
            i = i + 1;
        }
        proof {
            assert(self@.topics.take(self@.topics.len() as int) =~= self@.topics);
        }
        s
    }
}

} // verus!
