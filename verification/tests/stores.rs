use gossip_lib::Direction;
use gossip_lib::Error;
use gossip_lib::Id;
use gossip_lib::PublicKey;
use gossip_lib::Relay;
use gossip_lib::RelayRegistry;
use gossip_lib::RelayUrl;
use gossip_lib::RoutingOracle;
use gossip_lib::SeenOnLedger;
use gossip_lib::Unixtime;

fn url(s: &str) -> RelayUrl {
    RelayUrl::try_from_str(s).unwrap()
}

fn relay(s: &str, usage: u64, rank: u64) -> Relay {
    let mut relay = Relay::new(url(s));
    relay.set_usage_bits(usage);
    relay.rank = rank;
    relay
}

fn urls_of(relays: &[Relay]) -> Vec<&str> {
    relays.iter().map(|relay| relay.url.as_str()).collect()
}

#[test]
fn registry_filters_in_its_own_order() {
    let mut registry = RelayRegistry::new();
    registry.write_relay(relay("wss://c.example", Relay::WRITE, 3)).unwrap();
    registry.write_relay(relay("wss://a.example", Relay::READ, 3)).unwrap();
    registry
        .write_relay(relay("wss://b.example", Relay::WRITE | Relay::OUTBOX, 0))
        .unwrap();
    let all = registry.filter_relays(|_| true).unwrap();
    assert_eq!(
        urls_of(&all),
        vec!["wss://c.example/", "wss://a.example/", "wss://b.example/"]
    );
    let write = registry
        .filter_relays(|relay| relay.has_usage_bits(Relay::WRITE))
        .unwrap();
    assert_eq!(urls_of(&write), vec!["wss://c.example/", "wss://b.example/"]);
    let chosen = registry.filter_relays(|relay| relay.is_write_relay()).unwrap();
    assert_eq!(urls_of(&chosen), vec!["wss://c.example/"]);
    let none = registry.filter_relays(|_| false).unwrap();
    assert!(none.is_empty());
}

#[test]
fn registry_keeps_one_record_for_each_url() {
    let mut registry = RelayRegistry::new();
    registry.write_relay(relay("wss://a.example", Relay::READ, 3)).unwrap();
    registry.write_relay(relay("wss://b.example", Relay::READ, 3)).unwrap();
    registry.write_relay(relay("WSS://A.example/", Relay::WRITE, 7)).unwrap();
    let all = registry.filter_relays(|_| true).unwrap();
    assert_eq!(urls_of(&all), vec!["wss://a.example/", "wss://b.example/"]);
    assert_eq!(all[0].usage_bits, Relay::WRITE);
    assert_eq!(all[0].rank, 7);
    assert_eq!(all[1].usage_bits, Relay::READ);
    assert_eq!(all[1].rank, 3);
}

#[test]
fn registry_fault_fails_every_access() {
    let mut registry = RelayRegistry::new();
    registry.write_relay(relay("wss://a.example", Relay::READ, 3)).unwrap();
    registry.fail_with(Error::StorageUnavailable);
    assert_eq!(
        registry.filter_relays(|_| true).map(|found| found.len()),
        Err(Error::StorageUnavailable)
    );
    assert_eq!(
        registry.write_relay(relay("wss://b.example", Relay::READ, 3)),
        Err(Error::StorageUnavailable)
    );
    registry.recover();
    let all = registry.filter_relays(|_| true).unwrap();
    assert_eq!(urls_of(&all), vec!["wss://a.example/"]);
}

#[test]
fn oracle_ranks_by_score_and_then_by_url() {
    let mut oracle = RoutingOracle::new();
    let key = PublicKey([1u8; 32]);
    oracle.set_score(key, Direction::Read, &url("wss://b.example"), 5).unwrap();
    oracle.set_score(key, Direction::Read, &url("wss://d.example"), 9).unwrap();
    oracle.set_score(key, Direction::Read, &url("wss://a.example"), 5).unwrap();
    oracle.set_score(key, Direction::Read, &url("wss://c.example"), 1).unwrap();
    assert_eq!(
        oracle.get_best_relays(key, Direction::Read),
        Ok(vec![
            (url("wss://d.example"), 9),
            (url("wss://a.example"), 5),
            (url("wss://b.example"), 5),
            (url("wss://c.example"), 1),
        ])
    );
}

#[test]
fn oracle_moves_a_relay_that_is_scored_again() {
    let mut oracle = RoutingOracle::new();
    let key = PublicKey([1u8; 32]);
    oracle.set_score(key, Direction::Read, &url("wss://a.example"), 9).unwrap();
    oracle.set_score(key, Direction::Read, &url("wss://b.example"), 5).unwrap();
    oracle.set_score(key, Direction::Read, &url("wss://c.example"), 1).unwrap();
    oracle.set_score(key, Direction::Read, &url("wss://a.example"), 3).unwrap();
    assert_eq!(
        oracle.get_best_relays(key, Direction::Read),
        Ok(vec![
            (url("wss://b.example"), 5),
            (url("wss://a.example"), 3),
            (url("wss://c.example"), 1),
        ])
    );
    oracle.set_score(key, Direction::Read, &url("wss://c.example"), 1).unwrap();
    oracle.set_score(key, Direction::Read, &url("wss://c.example"), u64::MAX).unwrap();
    assert_eq!(
        oracle.get_best_relays(key, Direction::Read),
        Ok(vec![
            (url("wss://c.example"), u64::MAX),
            (url("wss://b.example"), 5),
            (url("wss://a.example"), 3),
        ])
    );
}

#[test]
fn oracle_order_does_not_depend_on_the_order_of_scoring() {
    let key = PublicKey([1u8; 32]);
    let scores = [
        ("wss://a.example", 4u64),
        ("wss://b.example", 8),
        ("wss://c.example", 4),
        ("wss://d.example", 0),
    ];
    let mut forward = RoutingOracle::new();
    for (u, s) in scores.iter() {
        forward.set_score(key, Direction::Write, &url(u), *s).unwrap();
    }
    let mut backward = RoutingOracle::new();
    for (u, s) in scores.iter().rev() {
        backward.set_score(key, Direction::Write, &url(u), *s).unwrap();
    }
    assert_eq!(
        forward.get_best_relays(key, Direction::Write),
        backward.get_best_relays(key, Direction::Write)
    );
    assert_eq!(
        forward.get_best_relays(key, Direction::Write),
        Ok(vec![
            (url("wss://b.example"), 8),
            (url("wss://a.example"), 4),
            (url("wss://c.example"), 4),
            (url("wss://d.example"), 0),
        ])
    );
}

#[test]
fn oracle_keeps_people_and_directions_apart() {
    let mut oracle = RoutingOracle::new();
    let one = PublicKey([1u8; 32]);
    let two = PublicKey([2u8; 32]);
    oracle.set_score(one, Direction::Read, &url("wss://a.example"), 9).unwrap();
    oracle.set_score(one, Direction::Write, &url("wss://b.example"), 9).unwrap();
    oracle.set_score(two, Direction::Read, &url("wss://c.example"), 9).unwrap();
    assert_eq!(
        oracle.get_best_relays(one, Direction::Read),
        Ok(vec![(url("wss://a.example"), 9)])
    );
    assert_eq!(
        oracle.get_best_relays(one, Direction::Write),
        Ok(vec![(url("wss://b.example"), 9)])
    );
    assert_eq!(
        oracle.get_best_relays(two, Direction::Read),
        Ok(vec![(url("wss://c.example"), 9)])
    );
    assert_eq!(oracle.get_best_relays(two, Direction::Write), Ok(vec![]));
    assert_eq!(
        oracle.get_best_relays(PublicKey([3u8; 32]), Direction::Read),
        Ok(vec![])
    );
}

#[test]
fn oracle_fault_fails_every_access() {
    let mut oracle = RoutingOracle::new();
    let key = PublicKey([1u8; 32]);
    oracle.set_score(key, Direction::Read, &url("wss://a.example"), 9).unwrap();
    oracle.fail_with(Error::CorruptRelayRecord);
    assert_eq!(
        oracle.get_best_relays(key, Direction::Read),
        Err(Error::CorruptRelayRecord)
    );
    assert_eq!(
        oracle.set_score(key, Direction::Read, &url("wss://b.example"), 9),
        Err(Error::CorruptRelayRecord)
    );
    oracle.recover();
    assert_eq!(
        oracle.get_best_relays(key, Direction::Read),
        Ok(vec![(url("wss://a.example"), 9)])
    );
}

#[test]
fn ledger_keeps_the_first_sighting() {
    let mut ledger = SeenOnLedger::new();
    let id = Id([1u8; 32]);
    let other = Id([2u8; 32]);
    ledger.add_event_seen_on_relay(id, &url("wss://b.example"), Unixtime(10)).unwrap();
    ledger.add_event_seen_on_relay(other, &url("wss://c.example"), Unixtime(11)).unwrap();
    ledger.add_event_seen_on_relay(id, &url("wss://a.example"), Unixtime(12)).unwrap();
    ledger.add_event_seen_on_relay(id, &url("wss://b.example"), Unixtime(13)).unwrap();
    assert_eq!(
        ledger.get_event_seen_on_relay(id),
        Ok(vec![
            (url("wss://b.example"), Unixtime(10)),
            (url("wss://a.example"), Unixtime(12)),
        ])
    );
    assert_eq!(
        ledger.get_event_seen_on_relay(other),
        Ok(vec![(url("wss://c.example"), Unixtime(11))])
    );
    assert_eq!(ledger.get_event_seen_on_relay(Id([3u8; 32])), Ok(vec![]));
}

#[test]
fn ledger_fault_fails_every_access() {
    let mut ledger = SeenOnLedger::new();
    let id = Id([1u8; 32]);
    ledger.add_event_seen_on_relay(id, &url("wss://b.example"), Unixtime(10)).unwrap();
    ledger.fail_with(Error::StorageUnavailable);
    assert_eq!(
        ledger.get_event_seen_on_relay(id),
        Err(Error::StorageUnavailable)
    );
    assert_eq!(
        ledger.add_event_seen_on_relay(id, &url("wss://a.example"), Unixtime(10)),
        Err(Error::StorageUnavailable)
    );
    ledger.recover();
    assert_eq!(
        ledger.get_event_seen_on_relay(id),
        Ok(vec![(url("wss://b.example"), Unixtime(10))])
    );
}
