//! Which relays an event goes to: the rule, the steps that compute it, and
//! what follows from the rule.

use vstd::prelude::*;
use crate::event::Unixtime;
use crate::ledger::seen_urls;
use crate::ledger::sighting_urls;
use crate::ledger::SeenOn;
use crate::oracle::Direction;
use crate::oracle::RoutingOracle;
use crate::relay::Relay;
use crate::url::RelayUrl;
use crate::url_set::UrlSet;

verus! {

/// `url` is the URL of a relay that the operator writes to: one of the
/// records has it, is flagged `WRITE` and has a rank other than 0.
pub open spec fn is_write_url(records: Seq<Relay>, url: Seq<char>) -> bool {
    exists|i: int|
        0 <= i < records.len() && (#[trigger] records[i]).spec_is_write_relay() && records[i].url@
            == url
}

/// `url` is among the first `n` entries of the ranking.
pub open spec fn in_top(ranking: Seq<(RelayUrl, u64)>, n: int, url: Seq<char>) -> bool {
    exists|i: int| 0 <= i < n && i < ranking.len() && (#[trigger] ranking[i]).0@ == url
}

/// `url` is among the best `extra + 1` read relays of one of the
/// participants: the best one, and `extra` more.
pub open spec fn is_recipient_url(
    oracle: RoutingOracle,
    pubkeys: Seq<Seq<u8>>,
    extra: u8,
    url: Seq<char>,
) -> bool {
    exists|j: int|
        0 <= j < pubkeys.len() && in_top(
            oracle.best(#[trigger] pubkeys[j], Direction::Read),
            extra + 1,
            url,
        )
}

/// The URLs of the relays that the operator writes to.
pub open spec fn write_urls(records: Seq<Relay>) -> Set<Seq<char>> {
    Set::new(|url: Seq<char>| is_write_url(records, url))
}

/// The URLs of the best `extra + 1` read relays of each of the participants.
pub open spec fn recipient_urls(oracle: RoutingOracle, pubkeys: Seq<Seq<u8>>, extra: u8) -> Set<
    Seq<char>,
> {
    Set::new(|url: Seq<char>| is_recipient_url(oracle, pubkeys, extra, url))
}

/// Where the event `id`, which refers to the participants `pubkeys`, is to be
/// sent: to every relay that the operator writes to and to the best
/// `extra + 1` read relays of each participant, but to none on which the event
/// was already met.
pub open spec fn destinations(
    records: Seq<Relay>,
    oracle: RoutingOracle,
    entries: Seq<SeenOn>,
    extra: u8,
    id: Seq<u8>,
    pubkeys: Seq<Seq<u8>>,
) -> Set<Seq<char>> {
    Set::new(
        |url: Seq<char>|
            (is_write_url(records, url) || is_recipient_url(oracle, pubkeys, extra, url))
                && !seen_urls(entries, id).contains(url),
    )
}

/// The URLs of the records.
pub open spec fn relay_urls(relays: Seq<Relay>) -> Set<Seq<char>> {
    Set::new(|url: Seq<char>| exists|i: int| 0 <= i < relays.len() && (#[trigger] relays[i]).url@ == url)
}

/// The URLs of the first `n` entries of the ranking.
pub open spec fn top_urls(ranking: Seq<(RelayUrl, u64)>, n: int) -> Set<Seq<char>> {
    Set::new(|url: Seq<char>| in_top(ranking, n, url))
}

/// Puts the URL of each of the records into the set.
pub fn add_relays(candidates: &mut UrlSet, relays: &Vec<Relay>)
    ensures
        final(candidates)@ == old(candidates)@.union(relay_urls(relays@)),
{
    let mut i: usize = 0;
    assert(candidates@ =~= old(candidates)@.union(relay_urls(relays@.take(0))));
    while i < relays.len()
        invariant
            0 <= i <= relays@.len(),
            candidates@ == old(candidates)@.union(relay_urls(relays@.take(i as int))),
        decreases relays@.len() - i,
    {
        candidates.insert(relays[i].url.clone());
        proof {
            let earlier = relays@.take(i as int);
            let later = relays@.take(i + 1);
            assert forall|url: Seq<char>| relay_urls(later).contains(url) <==> relay_urls(
                earlier,
            ).insert(relays@[i as int].url@).contains(url) by {
                if relay_urls(later).contains(url) {
                    let k = choose|k: int| 0 <= k < later.len() && (#[trigger] later[k]).url@ == url;
                    if k < i {
                        assert(earlier[k].url@ == url);
                    }
                }
                if relay_urls(earlier).contains(url) {
                    let k = choose|k: int|
                        0 <= k < earlier.len() && (#[trigger] earlier[k]).url@ == url;
                    assert(later[k].url@ == url);
                }
                if url == relays@[i as int].url@ {
                    assert(later[i as int].url@ == url);
                }
            }
            assert(candidates@ =~= old(candidates)@.union(relay_urls(later)));
        }
        i = i + 1;
    }
    proof {
        relays@.lemma_take_len();
    }
}

/// Puts the URLs of the first `n` entries of the ranking into the set: of
/// all of them, where the ranking has fewer.
pub fn add_top(candidates: &mut UrlSet, ranking: &Vec<(RelayUrl, u64)>, n: usize)
    ensures
        final(candidates)@ == old(candidates)@.union(top_urls(ranking@, n as int)),
{
    let mut i: usize = 0;
    assert(candidates@ =~= old(candidates)@.union(top_urls(ranking@, 0)));
    while i < ranking.len() && i < n
        invariant
            0 <= i <= ranking@.len(),
            i <= n,
            candidates@ == old(candidates)@.union(top_urls(ranking@, i as int)),
        decreases ranking@.len() - i,
    {
        candidates.insert(ranking[i].0.clone());
        proof {
            assert forall|url: Seq<char>| top_urls(ranking@, i + 1).contains(url) <==> top_urls(
                ranking@,
                i as int,
            ).insert(ranking@[i as int].0@).contains(url) by {
                if in_top(ranking@, i + 1, url) {
                    let k = choose|k: int|
                        0 <= k < i + 1 && k < ranking@.len() && (#[trigger] ranking@[k]).0@ == url;
                    if k < i {
                        assert(in_top(ranking@, i as int, url));
                    }
                }
                if in_top(ranking@, i as int, url) {
                    let k = choose|k: int|
                        0 <= k < i && k < ranking@.len() && (#[trigger] ranking@[k]).0@ == url;
                    assert(ranking@[k].0@ == url);
                }
                if url == ranking@[i as int].0@ {
                    assert(in_top(ranking@, i + 1, url));
                }
            }
            assert(candidates@ =~= old(candidates)@.union(top_urls(ranking@, i + 1)));
        }
        i = i + 1;
    }
    proof {
        assert forall|url: Seq<char>| top_urls(ranking@, i as int).contains(url) <==> top_urls(
            ranking@,
            n as int,
        ).contains(url) by {
            if in_top(ranking@, n as int, url) {
                let k = choose|k: int|
                    0 <= k < n && k < ranking@.len() && (#[trigger] ranking@[k]).0@ == url;
                assert(ranking@[k].0@ == url);
            }
            if in_top(ranking@, i as int, url) {
                let k = choose|k: int|
                    0 <= k < i && k < ranking@.len() && (#[trigger] ranking@[k]).0@ == url;
                assert(ranking@[k].0@ == url);
            }
        }
        assert(top_urls(ranking@, i as int) =~= top_urls(ranking@, n as int));
    }
}

/// Takes the URL of each sighting out of the set.
pub fn remove_seen(candidates: &mut UrlSet, sightings: &Vec<(RelayUrl, Unixtime)>)
    ensures
        final(candidates)@ == old(candidates)@.difference(sighting_urls(sightings@)),
{
    let mut i: usize = 0;
    assert(candidates@ =~= old(candidates)@.difference(sighting_urls(sightings@.take(0))));
    while i < sightings.len()
        invariant
            0 <= i <= sightings@.len(),
            candidates@ == old(candidates)@.difference(sighting_urls(sightings@.take(i as int))),
        decreases sightings@.len() - i,
    {
        candidates.remove(&sightings[i].0);
        proof {
            let earlier = sightings@.take(i as int);
            let later = sightings@.take(i + 1);
            assert forall|url: Seq<char>| sighting_urls(later).contains(url) <==> sighting_urls(
                earlier,
            ).insert(sightings@[i as int].0@).contains(url) by {
                if sighting_urls(later).contains(url) {
                    let k = choose|k: int| 0 <= k < later.len() && (#[trigger] later[k]).0@ == url;
                    if k < i {
                        assert(earlier[k].0@ == url);
                    }
                }
                if sighting_urls(earlier).contains(url) {
                    let k = choose|k: int|
                        0 <= k < earlier.len() && (#[trigger] earlier[k]).0@ == url;
                    assert(later[k].0@ == url);
                }
                if url == sightings@[i as int].0@ {
                    assert(later[i as int].0@ == url);
                }
            }
            assert(candidates@ =~= old(candidates)@.difference(sighting_urls(later)));
        }
        i = i + 1;
    }
    proof {
        sightings@.lemma_take_len();
    }
}

} // verus!
