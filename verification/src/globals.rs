//! The state that the choice of relays consults, and the choice itself.

use vstd::prelude::*;
use crate::error::Error;
use crate::event::pubkey_views;
use crate::event::spec_tagged_pubkeys;
use crate::event::Event;
use crate::event::Id;
use crate::event::PublicKey;
use crate::ledger::is_entry_of;
use crate::ledger::lemma_seen_on_urls;
use crate::ledger::seen_urls;
use crate::ledger::with_sighting;
use crate::ledger::SeenOn;
use crate::ledger::SeenOnLedger;
use crate::oracle::Direction;
use crate::oracle::Ranking;
use crate::oracle::RoutingOracle;
use crate::registry::computes;
use crate::registry::RelayRegistry;
use crate::relay::Relay;
use crate::selector::add_relays;
use crate::selector::add_top;
use crate::selector::destinations;
use crate::selector::in_top;
use crate::selector::is_recipient_url;
use crate::selector::is_write_url;
use crate::selector::recipient_urls;
use crate::selector::relay_urls;
use crate::selector::remove_seen;
use crate::selector::top_urls;
use crate::selector::write_urls;
use crate::url::RelayUrl;
use crate::url::UncheckedUrl;
use crate::url_set::ascending;
use crate::url_set::lemma_ascending_no_duplicates;
use crate::url_set::lemma_ascending_unique;
use crate::url_set::lists_ascending;
use crate::url_set::url_views;
use crate::url_set::UrlSet;

verus! {

/// What is needed to follow somebody: their key, and relays they post to.
#[derive(Debug)]
pub struct Profile {
    /// Their public key.
    pub pubkey: PublicKey,
    /// Some of the relays they post to.
    pub relays: Vec<UncheckedUrl>,
}

/// The URLs as strings.
pub open spec fn unchecked_views(urls: Seq<UncheckedUrl>) -> Seq<Seq<char>> {
    urls.map_values(|url: UncheckedUrl| url@)
}

/// The URLs of the records, in their order.
pub open spec fn record_urls(records: Seq<Relay>) -> Seq<Seq<char>> {
    records.map_values(|relay: Relay| relay.url@)
}

/// The URLs of the relays flagged `OUTBOX`, in the order of the records.
pub open spec fn outbox_urls(records: Seq<Relay>) -> Seq<Seq<char>> {
    record_urls(records.filter(|relay: Relay| relay.spec_has_usage_bits(Relay::OUTBOX)))
}

/// What a choice of relays ended with, the URLs as strings.
pub open spec fn outcome_view(r: Result<Vec<RelayUrl>, Error>) -> Result<Seq<Seq<char>>, Error> {
    match r {
        Ok(urls) => Ok(url_views(urls@)),
        Err(e) => Err(e),
    }
}

/// What the operator's client knows: who the operator is, the relays, the
/// rankings, the sightings, and the settings.
pub struct Globals {
    /// The operator's public key, once there is one.
    pub identity: Option<PublicKey>,
    /// The relays that are known.
    pub relays: RelayRegistry,
    /// The best relays of the participants that are known.
    pub oracle: RoutingOracle,
    /// Where each event was met.
    pub seen_on: SeenOnLedger,
    /// How many relays beyond the best one an event is sent to for each
    /// participant that it refers to.
    pub num_relays_per_person: u8,
}

impl Globals {
    /// The error that the choice of relays for an event that refers to
    /// `pubkeys` ends with, if it ends with one: that of the registry, else,
    /// where there is a participant to ask for, that of the oracle, else that
    /// of the ledger.
    pub open spec fn selection_fault(&self, pubkeys: Seq<Seq<u8>>) -> Option<Error> {
        if self.relays.fault() is Some {
            self.relays.fault()
        } else if pubkeys.len() > 0 && self.oracle.fault() is Some {
            self.oracle.fault()
        } else {
            self.seen_on.fault()
        }
    }

    /// Where the event `id`, which refers to the participants `pubkeys`, is
    /// to be sent.
    pub open spec fn destinations(&self, id: Seq<u8>, pubkeys: Seq<Seq<u8>>) -> Set<Seq<char>> {
        destinations(
            self.relays.records(),
            self.oracle,
            self.seen_on.entries(),
            self.num_relays_per_person,
            id,
            pubkeys,
        )
    }

    /// `outcome` is what the choice of relays for the event `id`, which refers
    /// to the participants `pubkeys`, ends with: the error, where a store
    /// that is read fails, and else the destinations in ascending order, each
    /// once.
    pub open spec fn is_outcome(
        &self,
        id: Seq<u8>,
        pubkeys: Seq<Seq<u8>>,
        outcome: Result<Seq<Seq<char>>, Error>,
    ) -> bool {
        match self.selection_fault(pubkeys) {
            Some(e) => outcome == Err::<Seq<Seq<char>>, Error>(e),
            None => outcome matches Ok(urls) && lists_ascending(
                urls,
                self.destinations(id, pubkeys),
            ),
        }
    }

    /// Nothing known yet: nobody's identity, no relay, no ranking, no
    /// sighting; and no relay beyond the best one for each participant.
    pub fn new() -> (r: Globals)
        ensures
            r.identity is None,
            r.relays.records() == Seq::<Relay>::empty(),
            r.relays.fault() is None,
            r.oracle.rankings() == Seq::<Ranking>::empty(),
            r.oracle.fault() is None,
            r.seen_on.entries() == Seq::<SeenOn>::empty(),
            r.seen_on.fault() is None,
            r.num_relays_per_person == 0,
    {
        Globals {
            identity: None,
            relays: RelayRegistry::new(),
            oracle: RoutingOracle::new(),
            seen_on: SeenOnLedger::new(),
            num_relays_per_person: 0,
        }
    }

    /// The operator's own profile: their key, and the relays flagged
    /// `OUTBOX`. There is none while the operator has no identity, and none
    /// when the registry cannot be read.
    pub fn get_your_nprofile(&self) -> (r: Option<Profile>)
        ensures
            match (self.identity, self.relays.fault()) {
                (Some(key), None) => r matches Some(profile) && profile.pubkey@ == key@
                    && unchecked_views(profile.relays@) == outbox_urls(self.relays.records()),
                _ => r is None,
            },
    {
        let public_key: PublicKey = match self.identity {
            Some(key) => key,
            None => {
                return None;
            },
        };
        let wanted = |relay: &Relay| -> (b: bool)
            ensures
                b == relay.spec_has_usage_bits(Relay::OUTBOX),
            { relay.has_usage_bits(Relay::OUTBOX) };
        let ghost outbox = |relay: Relay| relay.spec_has_usage_bits(Relay::OUTBOX);
        assert(computes(wanted, outbox));
        let relays: Vec<Relay> = match self.relays.filter_relays(wanted) {
            Ok(relays) => relays,
            Err(_) => {
                return None;
            },
        };
        assert(relays@ == self.relays.records().filter(outbox));
        let mut urls: Vec<UncheckedUrl> = Vec::new();
        let mut i: usize = 0;
        while i < relays.len()
            invariant
                0 <= i <= relays@.len(),
                unchecked_views(urls@) =~= record_urls(relays@.take(i as int)),
            decreases relays@.len() - i,
        {
            let ghost earlier = unchecked_views(urls@);
            urls.push(relays[i].url.to_unchecked_url());
            proof {
                relays@.lemma_take_succ_push(i as int);
                assert(unchecked_views(urls@) =~= earlier.push(relays@[i as int].url@));
                assert(record_urls(relays@.take(i + 1)) =~= record_urls(
                    relays@.take(i as int),
                ).push(relays@[i as int].url@));
            }
            i = i + 1;
        }
        proof {
            relays@.lemma_take_len();
        }
        Some(Profile { pubkey: public_key, relays: urls })
    }

    /// The relays that the event `id` is to be sent to, given the
    /// participants that it refers to: in ascending order, each once.
    pub fn relays_for_pubkeys(&self, id: Id, pubkeys: &Vec<PublicKey>) -> (r: Result<
        Vec<RelayUrl>,
        Error,
    >)
        ensures
            self.is_outcome(id@, pubkey_views(pubkeys@), outcome_view(r)),
    {
        let extra: u8 = self.num_relays_per_person;
        let ghost keys = pubkey_views(pubkeys@);
        let mut candidates = UrlSet::new();

        // The relays that we write to.
        let wanted = |relay: &Relay| -> (b: bool)
            ensures
                b == relay.spec_is_write_relay(),
            { relay.is_write_relay() };
        let ghost writes = |relay: Relay| relay.spec_is_write_relay();
        assert(computes(wanted, writes));
        let write_relays: Vec<Relay> = match self.relays.filter_relays(wanted) {
            Ok(relays) => relays,
            Err(e) => {
                return Err(e);
            },
        };
        add_relays(&mut candidates, &write_relays);
        proof {
            let records = self.relays.records();
            assert(write_relays@ == records.filter(writes));
            assert forall|url: Seq<char>| relay_urls(write_relays@).contains(url) <==> write_urls(
                records,
            ).contains(url) by {
                if relay_urls(write_relays@).contains(url) {
                    let k = choose|k: int|
                        0 <= k < write_relays@.len() && (#[trigger] write_relays@[k]).url@ == url;
                    records.lemma_filter_pred(writes, k);
                    assert(write_relays@.contains(write_relays@[k]));
                    records.lemma_filter_contains_rev(writes, write_relays@[k]);
                    let i = choose|i: int| 0 <= i < records.len() && records[i] == write_relays@[k];
                    assert(records[i].spec_is_write_relay() && records[i].url@ == url);
                }
                if is_write_url(records, url) {
                    let i = choose|i: int|
                        0 <= i < records.len() && (#[trigger] records[i]).spec_is_write_relay()
                            && records[i].url@ == url;
                    records.lemma_filter_contains(writes, i);
                    let k = choose|k: int|
                        0 <= k < write_relays@.len() && write_relays@[k] == records[i];
                    assert(write_relays@[k].url@ == url);
                }
            }
            assert(candidates@ =~= write_urls(records));
        }

        // The best read relays of everybody that the event refers to.
        let mut j: usize = 0;
        assert(candidates@ =~= write_urls(self.relays.records()).union(
            recipient_urls(self.oracle, keys.take(0), extra),
        ));
        while j < pubkeys.len()
            invariant
                0 <= j <= pubkeys@.len(),
                keys == pubkey_views(pubkeys@),
                self.relays.fault() is None,
                j > 0 ==> self.oracle.fault() is None,
                candidates@ == write_urls(self.relays.records()).union(
                    recipient_urls(self.oracle, keys.take(j as int), extra),
                ),
            decreases pubkeys@.len() - j,
        {
            let best: Vec<(RelayUrl, u64)> = match self.oracle.get_best_relays(
                pubkeys[j],
                Direction::Read,
            ) {
                Ok(best) => best,
                Err(e) => {
                    return Err(e);
                },
            };
            add_top(&mut candidates, &best, extra as usize + 1);
            proof {
                let earlier = keys.take(j as int);
                let later = keys.take(j + 1);
                assert(best@ == self.oracle.best(keys[j as int], Direction::Read));
                assert forall|url: Seq<char>| recipient_urls(self.oracle, later, extra).contains(
                    url,
                ) <==> recipient_urls(self.oracle, earlier, extra).union(
                    top_urls(best@, extra + 1),
                ).contains(url) by {
                    if is_recipient_url(self.oracle, later, extra, url) {
                        let k = choose|k: int|
                            0 <= k < later.len() && in_top(
                                self.oracle.best(#[trigger] later[k], Direction::Read),
                                extra + 1,
                                url,
                            );
                        if k < j {
                            assert(earlier[k] == later[k]);
                            assert(is_recipient_url(self.oracle, earlier, extra, url));
                        }
                    }
                    if is_recipient_url(self.oracle, earlier, extra, url) {
                        let k = choose|k: int|
                            0 <= k < earlier.len() && in_top(
                                self.oracle.best(#[trigger] earlier[k], Direction::Read),
                                extra + 1,
                                url,
                            );
                        assert(later[k] == earlier[k]);
                    }
                    if in_top(best@, extra + 1, url) {
                        assert(later[j as int] == keys[j as int]);
                    }
                }
                assert(candidates@ =~= write_urls(self.relays.records()).union(
                    recipient_urls(self.oracle, later, extra),
                ));
            }
            j = j + 1;
        }
        proof {
            keys.lemma_take_len();
        }

        // Less the relays on which the event was met already.
        let sightings = match self.seen_on.get_event_seen_on_relay(id) {
            Ok(sightings) => sightings,
            Err(e) => {
                return Err(e);
            },
        };
        remove_seen(&mut candidates, &sightings);
        proof {
            lemma_seen_on_urls(self.seen_on.entries(), id@);
            assert(candidates@ =~= self.destinations(id@, keys));
        }
        Ok(candidates.into_vec())
    }

    /// The relays that the event is to be sent to: in ascending order, each
    /// once.
    pub fn relays_for_event(&self, event: &Event) -> (r: Result<Vec<RelayUrl>, Error>)
        ensures
            self.is_outcome(event.id@, spec_tagged_pubkeys(event.tags@), outcome_view(r)),
            r matches Ok(urls) ==> forall|i: int|
                0 <= i < urls@.len() ==> {
                    &&& is_write_url(self.relays.records(), (#[trigger] urls@[i])@)
                        || is_recipient_url(
                        self.oracle,
                        spec_tagged_pubkeys(event.tags@),
                        self.num_relays_per_person,
                        urls@[i]@,
                    )
                    &&& !seen_urls(self.seen_on.entries(), event.id@).contains(urls@[i]@)
                },
    {
        let tagged_pubkeys = event.tagged_pubkeys();
        let r = self.relays_for_pubkeys(event.id, &tagged_pubkeys);
        proof {
            if let Ok(urls) = &r {
                let chosen = self.destinations(event.id@, spec_tagged_pubkeys(event.tags@));
                assert forall|i: int| 0 <= i < urls@.len() implies chosen.contains(
                    (#[trigger] urls@[i])@,
                ) by {
                    assert(url_views(urls@)[i] == urls@[i]@);
                    assert(url_views(urls@).contains(urls@[i]@));
                }
            }
        }
        r
    }
}

/// The choice is a function of what is known: from one state, the choice for
/// an event has one outcome, so that asking twice gives the same list.
pub proof fn lemma_outcome_unique(
    globals: Globals,
    id: Seq<u8>,
    pubkeys: Seq<Seq<u8>>,
    first: Result<Seq<Seq<char>>, Error>,
    second: Result<Seq<Seq<char>>, Error>,
)
    requires
        globals.is_outcome(id, pubkeys, first),
        globals.is_outcome(id, pubkeys, second),
    ensures
        first == second,
{
    if globals.selection_fault(pubkeys) is None {
        lemma_ascending_unique(first->Ok_0, second->Ok_0);
    }
}

/// The list that is chosen is sorted and holds no URL twice.
pub proof fn lemma_outcome_sorted(
    globals: Globals,
    id: Seq<u8>,
    pubkeys: Seq<Seq<u8>>,
    urls: Seq<Seq<char>>,
)
    requires
        globals.is_outcome(id, pubkeys, Ok(urls)),
    ensures
        ascending(urls),
        urls.no_duplicates(),
{
    lemma_ascending_no_duplicates(urls);
}

/// Where the event refers to nobody and the operator writes to no relay,
/// nothing is chosen.
pub proof fn lemma_nothing_to_send(globals: Globals, event: Event, urls: Seq<Seq<char>>)
    requires
        spec_tagged_pubkeys(event.tags@).len() == 0,
        forall|url: Seq<char>| !is_write_url(globals.relays.records(), url),
        globals.is_outcome(event.id@, spec_tagged_pubkeys(event.tags@), Ok(urls)),
    ensures
        urls.len() == 0,
{
    if urls.len() > 0 {
        assert(urls.contains(urls[0]));
        assert(globals.destinations(event.id@, spec_tagged_pubkeys(event.tags@)).contains(urls[0]));
    }
}

/// Raising the number of relays for each participant takes no relay out of
/// the choice.
pub proof fn lemma_more_relays_per_person(
    before: Globals,
    after: Globals,
    id: Seq<u8>,
    pubkeys: Seq<Seq<u8>>,
    fewer: Seq<Seq<char>>,
    more: Seq<Seq<char>>,
)
    requires
        after.relays == before.relays,
        after.oracle == before.oracle,
        after.seen_on == before.seen_on,
        before.num_relays_per_person <= after.num_relays_per_person,
        before.is_outcome(id, pubkeys, Ok(fewer)),
        after.is_outcome(id, pubkeys, Ok(more)),
    ensures
        forall|url: Seq<char>| fewer.contains(url) ==> more.contains(url),
{
    assert forall|url: Seq<char>| fewer.contains(url) implies more.contains(url) by {
        assert(before.destinations(id, pubkeys).contains(url));
        if is_recipient_url(before.oracle, pubkeys, before.num_relays_per_person, url) {
            let j = choose|j: int|
                0 <= j < pubkeys.len() && in_top(
                    before.oracle.best(#[trigger] pubkeys[j], Direction::Read),
                    before.num_relays_per_person + 1,
                    url,
                );
            let ranking = before.oracle.best(pubkeys[j], Direction::Read);
            let i = choose|i: int|
                0 <= i < before.num_relays_per_person + 1 && i < ranking.len() && (
                #[trigger] ranking[i]).0@ == url;
            assert(ranking[i].0@ == url);
            assert(in_top(ranking, after.num_relays_per_person + 1, url));
            assert(is_recipient_url(after.oracle, pubkeys, after.num_relays_per_person, url));
        }
        assert(after.destinations(id, pubkeys).contains(url));
    }
}

/// Meeting an event on a relay adds no relay to any choice made afterwards.
pub proof fn lemma_seen_on_takes_away(
    before: Globals,
    after: Globals,
    seen: SeenOn,
    id: Seq<u8>,
    pubkeys: Seq<Seq<u8>>,
    earlier: Seq<Seq<char>>,
    later: Seq<Seq<char>>,
)
    requires
        after.relays == before.relays,
        after.oracle == before.oracle,
        after.num_relays_per_person == before.num_relays_per_person,
        after.seen_on.entries() == with_sighting(
            before.seen_on.entries(),
            seen.id,
            seen.url,
            seen.when,
        ),
        before.is_outcome(id, pubkeys, Ok(earlier)),
        after.is_outcome(id, pubkeys, Ok(later)),
    ensures
        forall|url: Seq<char>| later.contains(url) ==> earlier.contains(url),
{
    assert forall|url: Seq<char>| later.contains(url) implies earlier.contains(url) by {
        assert(after.destinations(id, pubkeys).contains(url));
        if seen_urls(before.seen_on.entries(), id).contains(url) {
            let i = choose|i: int| is_entry_of(before.seen_on.entries(), id, url, i);
            assert(is_entry_of(after.seen_on.entries(), id, url, i));
        }
        assert(before.destinations(id, pubkeys).contains(url));
    }
}

} // verus!
