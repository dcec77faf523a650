//! The relay registry: one record for each relay URL.

use vstd::prelude::*;
use crate::error::Error;
use crate::relay::Relay;

verus! {

/// No two of the records are of the same URL.
pub open spec fn distinct_urls(records: Seq<Relay>) -> bool {
    forall|i: int, j: int|
        0 <= i < j < records.len() ==> (#[trigger] records[i]).url@ != (#[trigger] records[j]).url@
}

/// The record at `i` is the one of `url`.
pub open spec fn is_record_of(records: Seq<Relay>, url: Seq<char>, i: int) -> bool {
    0 <= i < records.len() && records[i].url@ == url
}

/// The records after `relay` was written: it stands in the place of the
/// record of its URL where there was one, and at the end where there was none.
pub open spec fn with_record(records: Seq<Relay>, relay: Relay) -> Seq<Relay> {
    if exists|i: int| is_record_of(records, relay.url@, i) {
        records.update(choose|i: int| is_record_of(records, relay.url@, i), relay)
    } else {
        records.push(relay)
    }
}

/// The relays that are known, each under its URL, and whether the store
/// behind them can be read.
pub struct RelayRegistry {
    relays: Vec<Relay>,
    fault: Option<Error>,
}

impl RelayRegistry {
    /// The records, in the order in which their relays were first written.
    pub closed spec fn records(&self) -> Seq<Relay> {
        self.relays@
    }

    /// The error that every access fails with, while there is one.
    pub closed spec fn fault(&self) -> Option<Error> {
        self.fault
    }

    /// Each URL has one record at most.
    #[verifier::type_invariant]
    pub closed spec fn wf(&self) -> bool {
        distinct_urls(self.relays@)
    }

    /// A registry without records, in working order.
    pub fn new() -> (r: RelayRegistry)
        ensures
            r.records() == Seq::<Relay>::empty(),
            r.fault() is None,
            r.wf(),
    {
        RelayRegistry { relays: Vec::new(), fault: None }
    }

    /// From now on every access fails with `error`.
    pub fn fail_with(&mut self, error: Error)
        ensures
            final(self).fault() == Some(error),
            final(self).records() == old(self).records(),
    {
        proof {
            use_type_invariant(&*self);
        }
        self.fault = Some(error);
    }

    /// From now on accesses succeed again.
    pub fn recover(&mut self)
        ensures
            final(self).fault() is None,
            final(self).records() == old(self).records(),
    {
        proof {
            use_type_invariant(&*self);
        }
        self.fault = None;
    }

    /// Writes the record of a relay: in place of the one that its URL has,
    /// or as a new one.
    pub fn write_relay(&mut self, relay: Relay) -> (r: Result<(), Error>)
        ensures
            final(self).fault() == old(self).fault(),
            final(self).wf(),
            match old(self).fault() {
                Some(e) => r == Err::<(), Error>(e) && final(self).records() == old(self).records(),
                None => r is Ok && final(self).records() == with_record(old(self).records(), relay),
            },
    {
        proof {
            use_type_invariant(&*self);
        }
        if let Some(e) = self.fault {
            return Err(e);
        }
        let mut i: usize = 0;
        while i < self.relays.len()
            invariant
                0 <= i <= self.relays@.len(),
                *self == *old(self),
                self.fault is None,
                distinct_urls(self.relays@),
                forall|k: int| 0 <= k < i ==> !is_record_of(self.relays@, relay.url@, k),
            decreases self.relays@.len() - i,
        {
            if self.relays[i].url == relay.url {
                assert(is_record_of(self.relays@, relay.url@, i as int));
                let ghost found = choose|k: int| is_record_of(old(self).relays@, relay.url@, k);
                assert(found == i);
                let mut relays: Vec<Relay> = Vec::new();
                core::mem::swap(&mut self.relays, &mut relays);
                relays.set(i, relay);
                core::mem::swap(&mut self.relays, &mut relays);
                assert(self.relays@ == old(self).relays@.update(found, relay));
                return Ok(());
            }
            i = i + 1;
        }
        let mut relays: Vec<Relay> = Vec::new();
        core::mem::swap(&mut self.relays, &mut relays);
        relays.push(relay);
        proof {
            assert forall|a: int, b: int| 0 <= a < b < relays@.len() implies (#[trigger] relays@[a]).url@
                != (#[trigger] relays@[b]).url@ by {
                if b == relays@.len() - 1 {
                    assert(!is_record_of(old(self).relays@, relay.url@, a));
                }
            }
        }
        core::mem::swap(&mut self.relays, &mut relays);
        Ok(())
    }

    /// The records that `wanted` holds of, in the order of the registry.
    /// Where `wanted` decides as a predicate does, these are the records of
    /// which the predicate holds; whatever `wanted` is, each record found is
    /// one that it accepted, and none is missing that it could not refuse.
    pub fn filter_relays<F: Fn(&Relay) -> bool>(&self, wanted: F) -> (r: Result<Vec<Relay>, Error>)
        requires
            forall|relay: Relay| wanted.requires((&relay,)),
        ensures
            match self.fault() {
                Some(e) => r == Err::<Vec<Relay>, Error>(e),
                None => {
                    &&& r matches Ok(found)
                    &&& forall|p: spec_fn(Relay) -> bool|
                        computes(wanted, p) ==> found@ == #[trigger] self.records().filter(p)
                    &&& forall|i: int|
                        0 <= i < found@.len() ==> self.records().contains(#[trigger] found@[i])
                            && wanted.ensures((&found@[i],), true)
                    &&& forall|j: int|
                        0 <= j < self.records().len() && !wanted.ensures(
                            (&#[trigger] self.records()[j],),
                            false,
                        ) ==> found@.contains(self.records()[j])
                },
            },
    {
        if let Some(e) = self.fault {
            return Err(e);
        }
        let mut found: Vec<Relay> = Vec::new();
        let mut i: usize = 0;
        assert forall|p: spec_fn(Relay) -> bool| computes(wanted, p) implies found@
            == #[trigger] self.relays@.take(0).filter(p) by {
            assert(self.relays@.take(0).filter(p) =~= Seq::<Relay>::empty());
        }
        while i < self.relays.len()
            invariant
                0 <= i <= self.relays@.len(),
                forall|relay: Relay| wanted.requires((&relay,)),
                forall|p: spec_fn(Relay) -> bool|
                    computes(wanted, p) ==> found@ == #[trigger] self.relays@.take(i as int).filter(
                        p,
                    ),
                forall|k: int|
                    0 <= k < found@.len() ==> self.relays@.contains(#[trigger] found@[k])
                        && wanted.ensures((&found@[k],), true),
                forall|j: int|
                    0 <= j < i && !wanted.ensures((&#[trigger] self.relays@[j],), false)
                        ==> found@.contains(self.relays@[j]),
            decreases self.relays@.len() - i,
        {
            let ghost earlier = found@;
            let keep = wanted(&self.relays[i]);
            if keep {
                found.push(self.relays[i].clone());
            }
            proof {
                let relay = self.relays@[i as int];
                assert(self.relays@.contains(relay));
                assert forall|j: int|
                    0 <= j < i + 1 && !wanted.ensures(
                        (&#[trigger] self.relays@[j],),
                        false,
                    ) implies found@.contains(self.relays@[j]) by {
                    if j < i {
                        let k = choose|k: int| 0 <= k < earlier.len() && earlier[k] == self.relays@[j];
                        assert(found@[k] == self.relays@[j]);
                    } else {
                        assert(found@[found@.len() - 1] == relay);
                    }
                }
                assert forall|p: spec_fn(Relay) -> bool| computes(wanted, p) implies found@
                    == #[trigger] self.relays@.take(i + 1).filter(p) by {
                    assert(earlier == self.relays@.take(i as int).filter(p));
                    assert(keep == p(relay));
                    self.relays@.lemma_take_succ_push(i as int);
                    self.relays@.take(i as int).lemma_filter_push(relay, p);
                }
            }
            i = i + 1;
        }
        proof {
            self.relays@.lemma_take_len();
        }
        Ok(found)
    }
}

/// `wanted` decides as the predicate `p` does: whatever it returns of a
/// record is what `p` says of it.
pub open spec fn computes<F: Fn(&Relay) -> bool>(wanted: F, p: spec_fn(Relay) -> bool) -> bool {
    forall|relay: Relay, b: bool| #[trigger] wanted.ensures((&relay,), b) ==> b == p(relay)
}

} // verus!
