use gossip_lib::Direction;
use gossip_lib::Error;
use gossip_lib::Event;
use gossip_lib::Globals;
use gossip_lib::Id;
use gossip_lib::PublicKey;
use gossip_lib::Relay;
use gossip_lib::RelayUrl;
use gossip_lib::Tag;
use gossip_lib::Unixtime;

const ALICE: &str = "79be667ef9dcbbac55a06295ce870b07029bfcdb2dce28d959f2815b16f81798";
const BOB: &str = "c6047f9441ed7d6d3045406e95c07cd85c778e4b8cef3ca7abac09b95c709ee5";
const AUTHOR: &str = "f9308a019258c31049344f85f89d5229b531c845836f99b08601f113bce036f9";

fn url(s: &str) -> RelayUrl {
    RelayUrl::try_from_str(s).unwrap()
}

fn a() -> RelayUrl {
    url("wss://a.example")
}

fn b() -> RelayUrl {
    url("wss://b.example")
}

fn c() -> RelayUrl {
    url("wss://c.example")
}

fn d() -> RelayUrl {
    url("wss://d.example")
}

fn key(hex: &str) -> PublicKey {
    PublicKey::try_from_hex_string(hex).unwrap()
}

/// A score between 0 and 1, in thousandths.
fn score(s: f64) -> u64 {
    (s * 1000.0).round() as u64
}

fn relay(url: RelayUrl, usage: u64, rank: u64) -> Relay {
    let mut relay = Relay::new(url);
    relay.set_usage_bits(usage);
    relay.rank = rank;
    relay
}

fn event(tagged: &[&str]) -> Event {
    Event {
        id: Id([7u8; 32]),
        pubkey: key(AUTHOR),
        tags: tagged.iter().map(|hex| Tag::new_pubkey(hex)).collect(),
    }
}

fn globals(extra: u8) -> Globals {
    let mut globals = Globals::new();
    globals.num_relays_per_person = extra;
    globals
}

fn rank(globals: &mut Globals, hex: &str, relays: &[(RelayUrl, f64)]) {
    for (url, s) in relays {
        globals
            .oracle
            .set_score(key(hex), Direction::Read, url, score(*s))
            .unwrap();
    }
}

#[test]
fn write_only_fan_out() {
    let mut globals = globals(1);
    globals.relays.write_relay(relay(b(), Relay::WRITE, 3)).unwrap();
    globals.relays.write_relay(relay(a(), Relay::WRITE, 3)).unwrap();
    assert_eq!(globals.relays_for_event(&event(&[])), Ok(vec![a(), b()]));
}

#[test]
fn recipient_fan_out() {
    let mut globals = globals(1);
    rank(&mut globals, ALICE, &[(c(), 0.9), (d(), 0.5), (a(), 0.1)]);
    assert_eq!(
        globals.oracle.get_best_relays(key(ALICE), Direction::Read),
        Ok(vec![(c(), 900), (d(), 500), (a(), 100)])
    );
    assert_eq!(globals.relays_for_event(&event(&[ALICE])), Ok(vec![c(), d()]));
}

fn union_setup() -> Globals {
    let mut globals = globals(1);
    globals.relays.write_relay(relay(a(), Relay::WRITE, 3)).unwrap();
    rank(&mut globals, ALICE, &[(a(), 0.9), (b(), 0.8)]);
    rank(&mut globals, BOB, &[(b(), 0.7), (c(), 0.6)]);
    globals
}

#[test]
fn union_and_dedup() {
    let globals = union_setup();
    assert_eq!(
        globals.relays_for_event(&event(&[ALICE, BOB])),
        Ok(vec![a(), b(), c()])
    );
}

#[test]
fn seen_on_subtraction() {
    let mut globals = union_setup();
    let event = event(&[ALICE, BOB]);
    globals
        .seen_on
        .add_event_seen_on_relay(event.id, &b(), Unixtime(1_700_000_000))
        .unwrap();
    assert_eq!(globals.relays_for_event(&event), Ok(vec![a(), c()]));
}

#[test]
fn rank_zero_exclusion() {
    let mut globals = globals(1);
    globals.relays.write_relay(relay(a(), Relay::WRITE, 3)).unwrap();
    globals.relays.write_relay(relay(b(), Relay::WRITE, 0)).unwrap();
    assert_eq!(globals.relays_for_event(&event(&[])), Ok(vec![a()]));
}

#[test]
fn storage_error() {
    let mut globals = union_setup();
    globals.relays.fail_with(Error::StorageUnavailable);
    assert_eq!(
        globals.relays_for_event(&event(&[ALICE, BOB])),
        Err(Error::StorageUnavailable)
    );
}

#[test]
fn corrupt_relay_record_is_passed_on() {
    let mut globals = union_setup();
    globals.relays.fail_with(Error::CorruptRelayRecord);
    assert_eq!(
        globals.relays_for_event(&event(&[])),
        Err(Error::CorruptRelayRecord)
    );
}

#[test]
fn registry_error_comes_before_the_others() {
    let mut globals = union_setup();
    globals.relays.fail_with(Error::CorruptRelayRecord);
    globals.oracle.fail_with(Error::StorageUnavailable);
    globals.seen_on.fail_with(Error::StorageUnavailable);
    assert_eq!(
        globals.relays_for_event(&event(&[ALICE])),
        Err(Error::CorruptRelayRecord)
    );
}

#[test]
fn oracle_error_aborts_when_somebody_is_tagged() {
    let mut globals = union_setup();
    globals.oracle.fail_with(Error::StorageUnavailable);
    globals.seen_on.fail_with(Error::CorruptRelayRecord);
    assert_eq!(
        globals.relays_for_event(&event(&[ALICE])),
        Err(Error::StorageUnavailable)
    );
}

#[test]
fn oracle_is_not_asked_when_nobody_is_tagged() {
    let mut globals = union_setup();
    globals.oracle.fail_with(Error::StorageUnavailable);
    assert_eq!(globals.relays_for_event(&event(&[])), Ok(vec![a()]));
}

#[test]
fn ledger_error_aborts() {
    let mut globals = union_setup();
    globals.seen_on.fail_with(Error::StorageUnavailable);
    assert_eq!(
        globals.relays_for_event(&event(&[])),
        Err(Error::StorageUnavailable)
    );
}

#[test]
fn recovered_stores_answer_again() {
    let mut globals = union_setup();
    globals.relays.fail_with(Error::StorageUnavailable);
    globals.oracle.fail_with(Error::StorageUnavailable);
    globals.seen_on.fail_with(Error::StorageUnavailable);
    globals.relays.recover();
    globals.oracle.recover();
    globals.seen_on.recover();
    assert_eq!(
        globals.relays_for_event(&event(&[ALICE, BOB])),
        Ok(vec![a(), b(), c()])
    );
}

#[test]
fn nothing_to_send() {
    let globals = globals(1);
    assert_eq!(globals.relays_for_event(&event(&[])), Ok(vec![]));
}

#[test]
fn nothing_to_send_without_write_relays_and_tags() {
    let mut globals = globals(3);
    globals.relays.write_relay(relay(a(), Relay::READ, 3)).unwrap();
    globals.relays.write_relay(relay(b(), Relay::WRITE, 0)).unwrap();
    rank(&mut globals, ALICE, &[(c(), 0.9)]);
    assert_eq!(globals.relays_for_event(&event(&[])), Ok(vec![]));
}

#[test]
fn zero_extra_relays_selects_one_per_recipient() {
    let mut globals = globals(0);
    rank(&mut globals, ALICE, &[(c(), 0.9), (d(), 0.5), (a(), 0.1)]);
    rank(&mut globals, BOB, &[(b(), 0.7), (c(), 0.6)]);
    assert_eq!(
        globals.relays_for_event(&event(&[ALICE, BOB])),
        Ok(vec![b(), c()])
    );
}

#[test]
fn more_extra_relays_than_the_ranking_has() {
    let mut globals = globals(255);
    rank(&mut globals, ALICE, &[(c(), 0.9), (d(), 0.5), (a(), 0.1)]);
    assert_eq!(
        globals.relays_for_event(&event(&[ALICE])),
        Ok(vec![a(), c(), d()])
    );
}

#[test]
fn write_relays_only_when_nobody_is_tagged() {
    let mut globals = union_setup();
    let event = event(&[]);
    globals
        .seen_on
        .add_event_seen_on_relay(event.id, &c(), Unixtime(5))
        .unwrap();
    assert_eq!(globals.relays_for_event(&event), Ok(vec![a()]));
}

#[test]
fn recipients_only_when_no_write_relay() {
    let mut globals = globals(1);
    rank(&mut globals, ALICE, &[(a(), 0.9), (b(), 0.8)]);
    rank(&mut globals, BOB, &[(b(), 0.7), (c(), 0.6)]);
    let event = event(&[ALICE, BOB]);
    globals
        .seen_on
        .add_event_seen_on_relay(event.id, &a(), Unixtime(5))
        .unwrap();
    assert_eq!(globals.relays_for_event(&event), Ok(vec![b(), c()]));
}

#[test]
fn sightings_of_other_events_do_not_count() {
    let mut globals = union_setup();
    globals
        .seen_on
        .add_event_seen_on_relay(Id([8u8; 32]), &b(), Unixtime(5))
        .unwrap();
    assert_eq!(
        globals.relays_for_event(&event(&[ALICE, BOB])),
        Ok(vec![a(), b(), c()])
    );
}

#[test]
fn rank_zero_does_not_exclude_a_recipients_relay() {
    let mut globals = globals(1);
    globals.relays.write_relay(relay(c(), Relay::WRITE, 0)).unwrap();
    rank(&mut globals, ALICE, &[(c(), 0.9)]);
    assert_eq!(globals.relays_for_event(&event(&[ALICE])), Ok(vec![c()]));
}

#[test]
fn write_ranking_is_not_consulted() {
    let mut globals = globals(1);
    globals
        .oracle
        .set_score(key(ALICE), Direction::Write, &d(), 999)
        .unwrap();
    rank(&mut globals, ALICE, &[(c(), 0.9)]);
    assert_eq!(globals.relays_for_event(&event(&[ALICE])), Ok(vec![c()]));
}

#[test]
fn relay_hint_of_a_tag_is_not_used() {
    let mut globals = globals(1);
    rank(&mut globals, ALICE, &[(c(), 0.9)]);
    let mut event = event(&[]);
    event.tags.push(Tag(vec![
        "p".to_owned(),
        ALICE.to_owned(),
        "wss://d.example/".to_owned(),
    ]));
    assert_eq!(globals.relays_for_event(&event), Ok(vec![c()]));
}

#[test]
fn tags_that_name_nobody_are_passed_over() {
    let mut globals = globals(1);
    rank(&mut globals, ALICE, &[(c(), 0.9)]);
    let mut event = event(&[]);
    event.tags.push(Tag(vec![]));
    event.tags.push(Tag(vec!["p".to_owned()]));
    event.tags.push(Tag(vec!["e".to_owned(), BOB.to_owned()]));
    event.tags.push(Tag(vec!["p".to_owned(), "not a key".to_owned()]));
    event.tags.push(Tag(vec!["p".to_owned(), ALICE.to_owned()]));
    assert_eq!(globals.relays_for_event(&event), Ok(vec![c()]));
}

#[test]
fn the_same_person_tagged_twice() {
    let mut globals = globals(0);
    rank(&mut globals, ALICE, &[(c(), 0.9), (d(), 0.5)]);
    assert_eq!(globals.relays_for_event(&event(&[ALICE, ALICE])), Ok(vec![c()]));
}

#[test]
fn two_calls_give_the_same_list() {
    let mut globals = union_setup();
    let event = event(&[ALICE, BOB]);
    globals
        .seen_on
        .add_event_seen_on_relay(event.id, &b(), Unixtime(5))
        .unwrap();
    let first = globals.relays_for_event(&event);
    let second = globals.relays_for_event(&event);
    assert_eq!(first, second);
    assert_eq!(first, Ok(vec![a(), c()]));
}

#[test]
fn raising_the_number_of_relays_removes_none() {
    let event = event(&[ALICE, BOB]);
    let mut previous: Vec<RelayUrl> = Vec::new();
    for extra in 0..4u8 {
        let mut globals = globals(extra);
        globals.relays.write_relay(relay(a(), Relay::WRITE, 3)).unwrap();
        rank(&mut globals, ALICE, &[(d(), 0.9), (b(), 0.8), (c(), 0.7)]);
        rank(&mut globals, BOB, &[(b(), 0.7), (c(), 0.6)]);
        let chosen = globals.relays_for_event(&event).unwrap();
        for url in &previous {
            assert!(chosen.contains(url));
        }
        previous = chosen;
    }
    assert_eq!(previous, vec![a(), b(), c(), d()]);
}

#[test]
fn a_sighting_adds_no_relay() {
    let mut globals = union_setup();
    let event = event(&[ALICE, BOB]);
    let before = globals.relays_for_event(&event).unwrap();
    globals
        .seen_on
        .add_event_seen_on_relay(event.id, &c(), Unixtime(5))
        .unwrap();
    let after = globals.relays_for_event(&event).unwrap();
    for url in &after {
        assert!(before.contains(url));
    }
    assert_eq!(after, vec![a(), b()]);
}

#[test]
fn the_list_is_sorted_by_the_bytes_of_the_urls() {
    let mut globals = globals(0);
    let urls = [
        "wss://relay.example/b",
        "wss://relay.example/B",
        "wss://relay.example",
        "ws://relay.example",
        "wss://relay.example:8080",
        "wss://r\u{e9}lay.example",
    ];
    for u in urls {
        globals.relays.write_relay(relay(url(u), Relay::WRITE, 1)).unwrap();
    }
    let chosen = globals.relays_for_event(&event(&[])).unwrap();
    let mut expected: Vec<String> = urls.iter().map(|u| url(u).as_str().to_owned()).collect();
    expected.sort();
    expected.dedup();
    let found: Vec<String> = chosen.iter().map(|u| u.as_str().to_owned()).collect();
    assert_eq!(found, expected);
    assert_eq!(found.len(), 6);
}

#[test]
fn relays_for_pubkeys_takes_the_recipients_as_they_are() {
    let globals = union_setup();
    let id = Id([7u8; 32]);
    assert_eq!(
        globals.relays_for_pubkeys(id, &vec![key(BOB)]),
        Ok(vec![a(), b(), c()])
    );
    assert_eq!(globals.relays_for_pubkeys(id, &vec![]), Ok(vec![a()]));
    let stranger = PublicKey([9u8; 32]);
    assert_eq!(globals.relays_for_pubkeys(id, &vec![stranger]), Ok(vec![a()]));
}
