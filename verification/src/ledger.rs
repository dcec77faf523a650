//! The seen-on ledger: on which relays each event was met, and when first.

use vstd::prelude::*;
use crate::error::Error;
use crate::event::Id;
use crate::event::Unixtime;
use crate::url::RelayUrl;

verus! {

/// One line of the ledger: an event was met on a relay.
#[derive(Debug)]
pub struct SeenOn {
    /// The event.
    pub id: Id,
    /// The relay it was met on.
    pub url: RelayUrl,
    /// When it was first met there.
    pub when: Unixtime,
}

/// The line at `i` is the one of the event `id` and the relay `url`.
pub open spec fn is_entry_of(entries: Seq<SeenOn>, id: Seq<u8>, url: Seq<char>, i: int) -> bool {
    0 <= i < entries.len() && entries[i].id@ == id && entries[i].url@ == url
}

/// No event has two lines for one relay.
pub open spec fn distinct_entries(entries: Seq<SeenOn>) -> bool {
    forall|i: int, j: int|
        0 <= i < j < entries.len() ==> !((#[trigger] entries[i]).id@ == (#[trigger] entries[j]).id@
            && entries[i].url@ == entries[j].url@)
}

/// The URLs of the relays on which the event `id` was met.
pub open spec fn seen_urls(entries: Seq<SeenOn>, id: Seq<u8>) -> Set<Seq<char>> {
    Set::new(|url: Seq<char>| exists|i: int| is_entry_of(entries, id, url, i))
}

/// The relays on which the event `id` was met, each with the time of the
/// first meeting, in the order of the ledger.
pub open spec fn seen_on(entries: Seq<SeenOn>, id: Seq<u8>) -> Seq<(RelayUrl, Unixtime)> {
    entries.filter_map(
        |entry: SeenOn|
            if entry.id@ == id {
                Some((entry.url, entry.when))
            } else {
                None
            },
    )
}

/// The URLs of a list of sightings.
pub open spec fn sighting_urls(sightings: Seq<(RelayUrl, Unixtime)>) -> Set<Seq<char>> {
    Set::new(|url: Seq<char>| exists|i: int| 0 <= i < sightings.len() && #[trigger] sightings[i].0@ == url)
}

/// The sightings of an event are on the relays on which it was met.
pub proof fn lemma_seen_on_urls(entries: Seq<SeenOn>, id: Seq<u8>)
    ensures
        sighting_urls(seen_on(entries, id)) == seen_urls(entries, id),
    decreases entries.len(),
{
    let pick = |entry: SeenOn|
        if entry.id@ == id {
            Some((entry.url, entry.when))
        } else {
            None
        };
    if entries.len() == 0 {
        assert(sighting_urls(seen_on(entries, id)) =~= seen_urls(entries, id));
    } else {
        let rest = entries.drop_last();
        let last = entries.last();
        lemma_seen_on_urls(rest, id);
        let all = seen_on(entries, id);
        let fewer = seen_on(rest, id);
        assert(all == if last.id@ == id {
            fewer + seq![(last.url, last.when)]
        } else {
            fewer
        });
        assert forall|url: Seq<char>| sighting_urls(all).contains(url) <==> seen_urls(
            entries,
            id,
        ).contains(url) by {
            if sighting_urls(all).contains(url) {
                let k = choose|k: int| 0 <= k < all.len() && #[trigger] all[k].0@ == url;
                if k < fewer.len() {
                    assert(fewer[k].0@ == url);
                    assert(sighting_urls(fewer).contains(url));
                    let i = choose|i: int| is_entry_of(rest, id, url, i);
                    assert(is_entry_of(entries, id, url, i));
                } else {
                    assert(is_entry_of(entries, id, url, entries.len() - 1));
                }
            }
            if seen_urls(entries, id).contains(url) {
                let i = choose|i: int| is_entry_of(entries, id, url, i);
                if i < rest.len() {
                    assert(is_entry_of(rest, id, url, i));
                    assert(sighting_urls(fewer).contains(url));
                    let k = choose|k: int| 0 <= k < fewer.len() && #[trigger] fewer[k].0@ == url;
                    assert(all[k].0@ == url);
                } else {
                    assert(all[all.len() - 1].0@ == url);
                }
            }
        }
        assert(sighting_urls(all) =~= seen_urls(entries, id));
    }
}

/// The ledger after the event `id` was met on `url` at `when`: a first
/// meeting adds a line, a later one changes nothing.
pub open spec fn with_sighting(entries: Seq<SeenOn>, id: Id, url: RelayUrl, when: Unixtime) -> Seq<
    SeenOn,
> {
    if exists|i: int| is_entry_of(entries, id@, url@, i) {
        entries
    } else {
        entries.push(SeenOn { id, url, when })
    }
}

/// On which relays each event was met, and whether the store behind the
/// ledger can be read.
pub struct SeenOnLedger {
    entries: Vec<SeenOn>,
    fault: Option<Error>,
}

impl SeenOnLedger {
    /// The lines, in the order in which they were added.
    pub closed spec fn entries(&self) -> Seq<SeenOn> {
        self.entries@
    }

    /// The error that every access fails with, while there is one.
    pub closed spec fn fault(&self) -> Option<Error> {
        self.fault
    }

    /// Each event has one line at most for each relay.
    #[verifier::type_invariant]
    pub closed spec fn wf(&self) -> bool {
        distinct_entries(self.entries@)
    }

    /// A ledger without lines, in working order.
    pub fn new() -> (r: SeenOnLedger)
        ensures
            r.entries() == Seq::<SeenOn>::empty(),
            r.fault() is None,
            r.wf(),
    {
        SeenOnLedger { entries: Vec::new(), fault: None }
    }

    /// From now on every access fails with `error`.
    pub fn fail_with(&mut self, error: Error)
        ensures
            final(self).fault() == Some(error),
            final(self).entries() == old(self).entries(),
    {
        proof {
            use_type_invariant(&*self);
        }
        self.fault = Some(error);
    }

    /// From now on accesses succeed again.
    pub fn recover(&mut self)
        ensures
            final(self).fault() is None,
            final(self).entries() == old(self).entries(),
    {
        proof {
            use_type_invariant(&*self);
        }
        self.fault = None;
    }

    /// Notes that the event `id` was met on the relay `url` at `when`.
    pub fn add_event_seen_on_relay(&mut self, id: Id, url: &RelayUrl, when: Unixtime) -> (r: Result<
        (),
        Error,
    >)
        ensures
            final(self).fault() == old(self).fault(),
            final(self).wf(),
            match old(self).fault() {
                Some(e) => r == Err::<(), Error>(e) && final(self).entries() == old(self).entries(),
                None => r is Ok && final(self).entries() == with_sighting(
                    old(self).entries(),
                    id,
                    *url,
                    when,
                ),
            },
    {
        proof {
            use_type_invariant(&*self);
        }
        if let Some(e) = self.fault {
            return Err(e);
        }
        let mut i: usize = 0;
        while i < self.entries.len()
            invariant
                0 <= i <= self.entries@.len(),
                *self == *old(self),
                self.fault is None,
                distinct_entries(self.entries@),
                forall|k: int| 0 <= k < i ==> !is_entry_of(self.entries@, id@, url@, k),
            decreases self.entries@.len() - i,
        {
            if self.entries[i].id == id && self.entries[i].url == *url {
                assert(is_entry_of(self.entries@, id@, url@, i as int));
                return Ok(());
            }
            i = i + 1;
        }
        let mut entries: Vec<SeenOn> = Vec::new();
        core::mem::swap(&mut self.entries, &mut entries);
        entries.push(SeenOn { id, url: url.clone(), when });
        proof {
            assert forall|a: int, b: int| 0 <= a < b < entries@.len() implies !((
            #[trigger] entries@[a]).id@ == (#[trigger] entries@[b]).id@ && entries@[a].url@
                == entries@[b].url@) by {
                if b == entries@.len() - 1 {
                    assert(!is_entry_of(old(self).entries@, id@, url@, a));
                }
            }
        }
        core::mem::swap(&mut self.entries, &mut entries);
        Ok(())
    }

    /// The relays on which the event `id` was met, each with the time of the
    /// first meeting.
    pub fn get_event_seen_on_relay(&self, id: Id) -> (r: Result<Vec<(RelayUrl, Unixtime)>, Error>)
        ensures
            match self.fault() {
                Some(e) => r == Err::<Vec<(RelayUrl, Unixtime)>, Error>(e),
                None => r matches Ok(found) && found@ == seen_on(self.entries(), id@),
            },
    {
        if let Some(e) = self.fault {
            return Err(e);
        }
        let ghost pick = |entry: SeenOn|
            if entry.id@ == id@ {
                Some((entry.url, entry.when))
            } else {
                None
            };
        let mut found: Vec<(RelayUrl, Unixtime)> = Vec::new();
        let mut i: usize = 0;
        assert(self.entries@.take(0).filter_map(pick) =~= Seq::<(RelayUrl, Unixtime)>::empty());
        while i < self.entries.len()
            invariant
                0 <= i <= self.entries@.len(),
                pick == |entry: SeenOn|
                    if entry.id@ == id@ {
                        Some((entry.url, entry.when))
                    } else {
                        None
                    },
                found@ =~= self.entries@.take(i as int).filter_map(pick),
            decreases self.entries@.len() - i,
        {
            proof {
                self.entries@.lemma_filter_map_take_succ(pick, i as int);
            }
            if self.entries[i].id == id {
                found.push((self.entries[i].url.clone(), self.entries[i].when));
            }
            i = i + 1;
        }
        proof {
            self.entries@.lemma_take_len();
        }
        Ok(found)
    }
}

} // verus!
