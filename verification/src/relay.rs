//! Relay records: where a relay is, what it is used for, and how much it is
//! trusted.

use vstd::prelude::*;
use crate::url::RelayUrl;

verus! {

/// What is known of one relay.
#[derive(Debug)]
pub struct Relay {
    /// Where the relay is; the registry holds one record for each URL.
    pub url: RelayUrl,
    /// What the relay is used for: any of the flags `READ` to `DISCOVER`.
    pub usage_bits: u64,
    /// How much the relay is preferred. A relay of rank 0 is never chosen
    /// by itself.
    pub rank: u64,
}

impl Clone for Relay {
    fn clone(&self) -> (r: Self)
        ensures
            r == *self,
    {
        Relay { url: self.url.clone(), usage_bits: self.usage_bits, rank: self.rank }
    }
}

impl Relay {
    /// Events are read from the relay.
    pub const READ: u64 = 1;

    /// Events are written to the relay.
    pub const WRITE: u64 = 2;

    /// The operator's relay list is advertised on the relay.
    pub const ADVERTISE: u64 = 4;

    /// The relay is one where the operator is reached.
    pub const INBOX: u64 = 8;

    /// The relay is one where the operator publishes.
    pub const OUTBOX: u64 = 16;

    /// Relay lists are looked for on the relay.
    pub const DISCOVER: u64 = 32;

    /// The rank that a newly found relay gets.
    pub const DEFAULT_RANK: u64 = 3;

    /// Every bit of `bits` is set on the relay.
    pub open spec fn spec_has_usage_bits(&self, bits: u64) -> bool {
        self.usage_bits & bits == bits
    }

    /// The operator publishes to the relay of themselves: it is flagged
    /// `WRITE` and its rank is not 0.
    pub open spec fn spec_is_write_relay(&self) -> bool {
        self.spec_has_usage_bits(Relay::WRITE) && self.rank != 0
    }

    /// A record for a relay that nothing is known of yet.
    pub fn new(url: RelayUrl) -> (r: Relay)
        ensures
            r.url == url,
            r.usage_bits == 0,
            r.rank == Relay::DEFAULT_RANK,
    {
        Relay { url, usage_bits: 0, rank: Relay::DEFAULT_RANK }
    }

    /// Whether every bit of `bits` is set on the relay.
    #[verifier::when_used_as_spec(spec_has_usage_bits)]
    pub fn has_usage_bits(&self, bits: u64) -> (r: bool)
        ensures
            r == self.spec_has_usage_bits(bits),
    {
        self.usage_bits & bits == bits
    }

    /// Whether the operator publishes to the relay of themselves.
    #[verifier::when_used_as_spec(spec_is_write_relay)]
    pub fn is_write_relay(&self) -> (r: bool)
        ensures
            r == self.spec_is_write_relay(),
    {
        self.has_usage_bits(Relay::WRITE) && self.rank != 0
    }

    /// Sets every bit of `bits`, and leaves the others as they are.
    pub fn set_usage_bits(&mut self, bits: u64)
        ensures
            final(self).usage_bits == old(self).usage_bits | bits,
            final(self).spec_has_usage_bits(bits),
            final(self).url == old(self).url,
            final(self).rank == old(self).rank,
    {
        let before: u64 = self.usage_bits;
        assert((before | bits) & bits == bits) by (bit_vector);
        self.usage_bits = before | bits;
    }

    /// Clears every bit of `bits`, and leaves the others as they are.
    pub fn clear_usage_bits(&mut self, bits: u64)
        ensures
            final(self).usage_bits == old(self).usage_bits & !bits,
            forall|flag: u64|
                flag & bits != 0 ==> !(#[trigger] final(self).spec_has_usage_bits(flag)),
            final(self).url == old(self).url,
            final(self).rank == old(self).rank,
    {
        let before: u64 = self.usage_bits;
        assert(forall|flag: u64| flag & bits != 0 ==> (before & !bits) & flag != flag)
            by (bit_vector);
        self.usage_bits = before & !bits;
    }
}

} // verus!
