use sha2::Digest as _;
use syncstate::diff::Diff;
use syncstate::remote::{DummyRemote, EventBroadcaster, Remote};
use syncstate::statemap::{StateMap, StateMapError};
use syncstate::event::Event;

fn b(s: &str) -> Vec<u8> {
    s.as_bytes().to_vec()
}

fn sample(master: bool) -> StateMap<DummyRemote> {
    let mut map = StateMap::new(DummyRemote);
    map.push(b("0"), b("Message 0")).unwrap();
    map.push(b("1"), b("Message 1")).unwrap();
    map.push(b("2"), b("Message 2")).unwrap();
    map.set_master(master).unwrap();
    map.freeze().unwrap();
    map
}

/// A remote whose every call fails.
struct FailingRemote;

impl Remote for FailingRemote {
    fn fetch_updates(&self, _c: u64, _n: u64, _h: &[u8; 32]) -> Result<Diff, String> {
        Err(String::from("unreachable server"))
    }

    fn init(&self, _statemap: &StateMap<Self>) -> Result<(), String> {
        Err(String::from("init refused"))
    }
}

/// A remote that hands out a fixed diff.
struct FixedRemote(Vec<(Vec<u8>, Vec<u8>)>, u64, u64);

impl Remote for FixedRemote {
    fn fetch_updates(&self, _c: u64, _n: u64, _h: &[u8; 32]) -> Result<Diff, String> {
        Ok(Diff::new(self.0.clone(), false, self.1, self.2))
    }

    fn init(&self, _statemap: &StateMap<Self>) -> Result<(), String> {
        Ok(())
    }
}

#[test]
fn statemap_doc_example() {
    let mut map = StateMap::new(DummyRemote);
    map.push(b("0"), b("Message 0")).unwrap();
    map.push(b("1"), b("Message 1")).unwrap();
    map.push(b("2"), b("Message 2")).unwrap();
    map.freeze().unwrap();
    assert_eq!(map.push(b("3"), b("Message 3")), Err(StateMapError::Frozen));
    assert_eq!(map.set_update_id(100), Err(StateMapError::EmptyDiff));
    assert_eq!(map.get_update_id(), 0);
    assert_eq!(map.get(b"0"), Some(&b("Message 0")));
    assert_eq!(map.get(b"3"), None);
}

#[test]
fn begin_modification_doc_example() {
    let mut map = sample(true);
    let mut mods = map.begin_modification().unwrap();
    mods.set(b("1"), b("Modified Message 1"))
        .unwrap()
        .set(b("0"), b("Modified Message 0"))
        .unwrap();
    assert_eq!(mods.get(b"1"), Some(&b("Modified Message 1")));
    assert_eq!(mods.get(b"2"), Some(&b("Message 2")));
    mods.commit();
    assert_eq!(map.get_update_id(), 1);
    assert_eq!(map.get(b"0"), Some(&b("Modified Message 0")));
    assert_eq!(map.get(b"1"), Some(&b("Modified Message 1")));
    assert_eq!(map.get(b"2"), Some(&b("Message 2")));
}

#[test]
fn modifier_unknown_key() {
    let mut map = sample(true);
    let mut mods = map.begin_modification().unwrap();
    assert!(matches!(mods.set(b("9"), b("x")), Err(StateMapError::KeyNotFound)));
    mods.commit();
    assert_eq!(map.get(b"9"), None);
    assert_eq!(map.get_update_id(), 1);
}

#[test]
fn begin_modification_refused_on_frozen_replica() {
    let mut map = sample(false);
    assert!(matches!(map.begin_modification(), Err(StateMapError::Frozen)));
}

#[test]
fn new_map_is_empty_and_unfrozen() {
    let map = StateMap::new(DummyRemote);
    assert_eq!(map.get_update_id(), 0);
    assert!(!map.is_frozen());
    assert!(map.hash().is_none());
    assert!(map.entries().is_empty());
}

#[test]
fn push_overrides_value() {
    let mut map = StateMap::new(DummyRemote);
    map.push(b("k"), b("v1")).unwrap();
    map.push(b("k"), b("v2")).unwrap();
    assert_eq!(map.get(b"k"), Some(&b("v2")));
    assert_eq!(map.entries().len(), 1);
}

#[test]
fn set_master_after_freeze_fails() {
    let mut map = sample(false);
    assert_eq!(map.set_master(true), Err(StateMapError::Frozen));
}

#[test]
fn set_on_master_records_diff() {
    let mut map = sample(true);
    map.set(b("1"), b("new")).unwrap();
    assert_eq!(map.get_update_id(), 1);
    assert_eq!(map.get(b"1"), Some(&b("new")));
    let d = map.get_diff(0, 1);
    // from update id 0 the history starts with the full diff: everything is served
    let mut entries = d.get_diff().clone();
    entries.sort();
    assert_eq!(
        entries,
        vec![(b("0"), b("Message 0")), (b("1"), b("new")), (b("2"), b("Message 2"))]
    );
    assert_eq!(d.upto_update_id(), 1);
}

#[test]
fn set_errors() {
    let mut replica = sample(false);
    assert_eq!(replica.set(b("1"), b("x")), Err(StateMapError::Frozen));
    assert_eq!(replica.set(b("7"), b("x")), Err(StateMapError::KeyNotFound));
    let mut unfrozen = StateMap::new(DummyRemote);
    unfrozen.push(b("a"), b("1")).unwrap();
    assert_eq!(unfrozen.set(b("a"), b("2")), Ok(()));
    assert_eq!(unfrozen.get_update_id(), 1);
}

#[test]
fn set_update_id_errors() {
    let mut unfrozen: StateMap<DummyRemote> = StateMap::new(DummyRemote);
    assert_eq!(unfrozen.set_update_id(3), Err(StateMapError::Unfrozen));
    // a map that is not frozen is refused whatever the update id
    assert_eq!(unfrozen.set_update_id(0), Err(StateMapError::Unfrozen));
    // a frozen map asked for an update id it has already reached does nothing
    let mut frozen = sample(false);
    assert_eq!(frozen.set_update_id(0), Ok(()));
    assert_eq!(frozen.get_update_id(), 0);

    let mut map = StateMap::new(FailingRemote);
    map.push(b("a"), b("1")).unwrap();
    assert_eq!(map.freeze(), Err(StateMapError::UnknownError(String::from("init refused"))));
    assert!(map.is_frozen());
    assert_eq!(
        map.set_update_id(5),
        Err(StateMapError::FetchUpdateError(String::from("unreachable server")))
    );
}

#[test]
fn set_update_id_applies_fetched_diff() {
    let mut map = StateMap::new(FixedRemote(vec![(b("a"), b("2"))], 0, 4));
    map.push(b("a"), b("1")).unwrap();
    map.push(b("b"), b("1")).unwrap();
    map.freeze().unwrap();
    assert_eq!(map.set_update_id(10), Ok(()));
    assert_eq!(map.get_update_id(), 4);
    assert_eq!(map.get(b"a"), Some(&b("2")));
    assert_eq!(map.get(b"b"), Some(&b("1")));
}

#[test]
fn apply_fetched_updates_inconsistent_start() {
    let mut map = sample(false);
    let d = Diff::new(vec![(b("0"), b("x"))], false, 3, 4);
    let r = map.apply_fetched_updates(Ok(d));
    match r {
        Err(StateMapError::FetchUpdateError(msg)) => {
            assert_eq!(
                msg,
                "The from update id is not consistent, diff from_update_id: 3, self update_id: 0"
            );
        }
        other => panic!("unexpected {:?}", other),
    }
    assert_eq!(map.get(b"0"), Some(&b("Message 0")));
    assert_eq!(map.get_update_id(), 0);
}

#[test]
fn apply_fetched_updates_adds_no_keys() {
    let mut map = sample(false);
    let d = Diff::new(vec![(b("9"), b("nine")), (b("0"), b("zero"))], false, 0, 2);
    assert_eq!(map.apply_fetched_updates(Ok(d)), Ok(()));
    assert_eq!(map.get(b"9"), None);
    assert_eq!(map.get(b"0"), Some(&b("zero")));
    assert_eq!(map.get_update_id(), 2);
}

#[test]
fn apply_fetched_updates_refuses_backward_diff() {
    let mut map = sample(false);
    let d = Diff::new(vec![(b("0"), b("zero"))], false, 0, 3);
    assert_eq!(map.apply_fetched_updates(Ok(d)), Ok(()));
    let back = Diff::new(vec![(b("0"), b("old"))], false, 0, 1);
    match map.apply_fetched_updates(Ok(back)) {
        Err(StateMapError::FetchUpdateError(msg)) => {
            assert_eq!(
                msg,
                "The diff would move the state backwards, diff upto_update_id: 1, self update_id: 3"
            );
        }
        other => panic!("unexpected {:?}", other),
    }
    assert_eq!(map.get(b"0"), Some(&b("zero")));
    assert_eq!(map.get_update_id(), 3);
}

#[test]
fn push_twice_hashes_the_pair_once() {
    let mut map = StateMap::new(DummyRemote);
    map.push(b("a"), b("1")).unwrap();
    map.push(b("a"), b("2")).unwrap();
    map.freeze().unwrap();
    let expected: [u8; 32] = sha2::Sha256::digest(&record(b"a", b"2")).into();
    assert_eq!(map.hash(), Some(&expected));
}

fn record(key: &[u8], value: &[u8]) -> Vec<u8> {
    let mut out = Vec::new();
    out.extend_from_slice(&(key.len() as u64).to_be_bytes());
    out.extend_from_slice(key);
    out.extend_from_slice(&(value.len() as u64).to_be_bytes());
    out.extend_from_slice(value);
    out
}

#[test]
fn frozen_hash_is_sha256_of_sorted_records() {
    let mut map = StateMap::new(DummyRemote);
    map.push(b("b"), b("2")).unwrap();
    map.push(b("a"), b("1")).unwrap();
    map.push(b("ab"), b("3")).unwrap();
    map.freeze().unwrap();
    let mut stream = record(b"a", b"1");
    stream.extend(record(b"ab", b"3"));
    stream.extend(record(b"b", b"2"));
    let expected: [u8; 32] = sha2::Sha256::digest(&stream).into();
    assert_eq!(map.hash(), Some(&expected));
}

#[test]
fn frozen_hash_ignores_push_order() {
    let mut m1 = StateMap::new(DummyRemote);
    m1.push(b("x"), b("1")).unwrap();
    m1.push(b("y"), b("2")).unwrap();
    m1.freeze().unwrap();
    let mut m2 = StateMap::new(DummyRemote);
    m2.push(b("y"), b("2")).unwrap();
    m2.push(b("x"), b("1")).unwrap();
    m2.freeze().unwrap();
    assert_eq!(m1.hash(), m2.hash());
    let mut m3 = StateMap::new(DummyRemote);
    m3.push(b("y"), b("3")).unwrap();
    m3.push(b("x"), b("1")).unwrap();
    m3.freeze().unwrap();
    assert_ne!(m1.hash(), m3.hash());
}

#[test]
fn freeze_twice_changes_nothing() {
    let mut map = sample(true);
    let h = *map.hash().unwrap();
    assert_eq!(map.freeze(), Ok(()));
    assert_eq!(map.hash(), Some(&h));
}

#[test]
fn replica_catches_up_with_master() {
    let mut master = sample(true);
    let mut replica = sample(false);
    assert_eq!(master.hash(), replica.hash());
    master.set(b("1"), b("one")).unwrap();
    let mut mods = master.begin_modification().unwrap();
    mods.set(b("2"), b("two")).unwrap();
    mods.commit();
    master.set(b("1"), b("uno")).unwrap();
    assert_eq!(master.get_update_id(), 3);

    let d = master.get_diff(replica.get_update_id(), 100);
    assert_eq!(replica.apply_fetched_updates(Ok(d)), Ok(()));
    assert_eq!(replica.get_update_id(), 3);
    for k in [b"0", b"1", b"2"] {
        assert_eq!(replica.get(k), master.get(k));
    }

    // the replica at update id 3 is served the whole state again
    let again = master.get_diff(3, 100);
    assert!(again.is_full_update());
    assert_eq!(again.upto_update_id(), 3);
}

#[test]
fn replica_catches_up_from_middle_of_history() {
    let mut master = sample(true);
    master.set(b("0"), b("a")).unwrap();
    let mut replica = sample(false);
    replica.apply_fetched_updates(Ok(master.get_diff(0, 1))).unwrap();
    assert_eq!(replica.get_update_id(), 1);
    master.set(b("2"), b("b")).unwrap();
    master.set(b("0"), b("c")).unwrap();
    let d = master.get_diff(1, 50);
    assert!(!d.is_full_update());
    assert_eq!(d.from_update_id(), 1);
    assert_eq!(d.upto_update_id(), 3);
    let mut entries = d.get_diff().clone();
    entries.sort();
    assert_eq!(entries, vec![(b("0"), b("c")), (b("2"), b("b"))]);
    replica.apply_fetched_updates(Ok(d)).unwrap();
    for k in [b"0", b"1", b"2"] {
        assert_eq!(replica.get(k), master.get(k));
    }
}

#[test]
fn replica_reaches_intermediate_target() {
    let mut master = sample(true);
    master.set(b("0"), b("a")).unwrap(); // update 1
    master.set(b("2"), b("b")).unwrap(); // update 2
    master.set(b("0"), b("c")).unwrap(); // update 3
    let mut replica = sample(false);
    replica.apply_fetched_updates(Ok(master.get_diff(0, 1))).unwrap();
    assert_eq!(replica.get_update_id(), 1);
    let d = master.get_diff(1, 2);
    assert_eq!(d.from_update_id(), 1);
    assert_eq!(d.upto_update_id(), 2);
    assert_eq!(replica.apply_fetched_updates(Ok(d)), Ok(()));
    assert_eq!(replica.get_update_id(), 2);
    assert_eq!(replica.get(b"0"), Some(&b("a")));
    assert_eq!(replica.get(b"1"), Some(&b("Message 1")));
    assert_eq!(replica.get(b"2"), Some(&b("b")));
}

#[test]
fn get_diff_edge_cases() {
    let mut master = sample(true);
    master.set(b("0"), b("a")).unwrap(); // history: full(0,0), (0,1)
    master.set(b("1"), b("b")).unwrap(); // (1,2)
    // asking for an intermediate version
    let d = master.get_diff(1, 1);
    assert!(d.is_empty());
    assert_eq!(d.from_update_id(), u64::MAX);
    assert_eq!(d.upto_update_id(), 0);
    // a base that is not recorded
    let full = master.get_diff(7, 9);
    assert!(full.is_full_update());
    assert_eq!(full.get_diff().len(), 3);
    assert!(master.can_serve_diff());
    // a request to go backwards gets an empty diff
    let back = master.get_diff(1, 0);
    assert!(back.is_empty());
    assert!(!back.is_full_update());
    assert_eq!(back.upto_update_id(), 0);
    // a map that recorded nothing cannot serve
    let unfrozen: StateMap<DummyRemote> = StateMap::new(DummyRemote);
    assert!(!unfrozen.can_serve_diff());
}

#[test]
fn get_diff_empty_when_nothing_ends_early_enough() {
    let mut master = StateMap::new(DummyRemote);
    master.push(b("k"), b("v")).unwrap();
    master.set(b("k"), b("w")).unwrap(); // (0,1) before freezing
    master.set_master(true).unwrap();
    master.freeze().unwrap(); // full(0,1)
    let d = master.get_diff(0, 0);
    assert!(d.is_empty());
    assert!(!d.is_full_update());
    assert_eq!(d.upto_update_id(), 0);
}

#[test]
fn into_entries_gives_data() {
    let map = sample(false);
    let mut e = map.into_entries();
    e.sort();
    assert_eq!(e[0], (b("0"), b("Message 0")));
    assert_eq!(e.len(), 3);
}

#[test]
fn dummy_remote_behaviour() {
    let map = sample(false);
    let d = DummyRemote.fetch_updates(0, 10, map.hash().unwrap()).unwrap();
    assert!(d.is_empty());
    assert_eq!(d.from_update_id(), 0);
    assert_eq!(d.upto_update_id(), 0);
    assert!(!d.is_full_update());
    assert_eq!(DummyRemote.init(&map), Ok(()));
    assert_eq!(DummyRemote.send_event(vec![1, 2, 3], map.hash().unwrap()), Ok(()));
}

#[test]
fn event_new_keeps_content() {
    let e = Event::new(String::from("Echo"));
    assert_eq!(e.content, "Echo");
}

#[test]
fn digest_fixed_once_frozen() {
    let mut map = StateMap::new(DummyRemote);
    assert!(!map.is_frozen());
    map.push(b("a"), b("1")).unwrap();
    map.set(b("a"), b("2")).unwrap();
    map.set_master(true).unwrap();
    assert!(!map.is_frozen());
    assert_eq!(map.hash(), None);
    map.freeze().unwrap();
    assert!(map.is_frozen());
    let h = *map.hash().unwrap();
    map.set(b("a"), b("3")).unwrap();
    let mut mods = map.begin_modification().unwrap();
    mods.set(b("a"), b("4")).unwrap();
    mods.commit();
    assert_eq!(map.push(b("b"), b("1")), Err(StateMapError::Frozen));
    assert_eq!(map.set_update_id(10), Err(StateMapError::EmptyDiff));
    assert_eq!(map.freeze(), Ok(()));
    assert_eq!(map.hash(), Some(&h));
    assert!(map.is_frozen());
}

#[test]
fn failed_freeze_still_freezes() {
    let mut map = StateMap::new(FailingRemote);
    map.push(b("a"), b("1")).unwrap();
    assert!(map.freeze().is_err());
    let h = *map.hash().unwrap();
    assert_eq!(map.freeze(), Ok(()));
    assert_eq!(map.hash(), Some(&h));
}
