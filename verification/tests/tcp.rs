use syncstate::diff::Diff;
use syncstate::remote::DummyRemote;
use syncstate::statemap::StateMap;
use syncstate::tcp::remote::{confirm_event, confirm_init, diff_from_response, init_request, read_probe, ProbeOutcome, ReplyError};
use syncstate::tcp::server::{authorize, build_master, RequestError, ServerStep, StateServerCore};
use syncstate::tcp::{TcpStateServerRequest, TcpStateServerRequestWrapper, TcpStateServerResponse};

fn b(s: &str) -> Vec<u8> {
    s.as_bytes().to_vec()
}

fn encode_entries(entries: &Vec<(Vec<u8>, Vec<u8>)>) -> Result<Vec<u8>, String> {
    bincode::serde::encode_to_vec(entries, bincode::config::standard()).map_err(|e| e.to_string())
}

fn client_map() -> StateMap<DummyRemote> {
    let mut map = StateMap::new(DummyRemote);
    map.push(b("0"), b("Message 0")).unwrap();
    map.push(b("1"), b("Message 1")).unwrap();
    map.freeze().unwrap();
    map
}

fn init(core: &mut StateServerCore, map: &StateMap<DummyRemote>) {
    let req = init_request(map).unwrap();
    match core.process_request(req) {
        Ok(ServerStep::RunInitHooks { hash, statemap }) => {
            assert_eq!(&hash, map.hash().unwrap());
            assert!(matches!(core.finish_init(hash, statemap), TcpStateServerResponse::InitSuccess));
        }
        _ => panic!("expected the init hooks to run"),
    }
}

#[test]
fn init_request_encodes_entries() {
    let map = client_map();
    match init_request(&map).unwrap() {
        TcpStateServerRequest::Init { hash, init_data } => {
            assert_eq!(&hash, map.hash().unwrap());
            let (mut decoded, _): (Vec<(Vec<u8>, Vec<u8>)>, usize) =
                bincode::serde::decode_from_slice(&init_data, bincode::config::standard()).unwrap();
            decoded.sort();
            assert_eq!(decoded, vec![(b("0"), b("Message 0")), (b("1"), b("Message 1"))]);
            // standard bincode: varint count, then each byte string length-prefixed
            assert_eq!(init_data[0], 2u8);
        }
        _ => panic!(),
    }
}

#[test]
fn build_master_dedups_and_freezes() {
    let m = build_master(&vec![(b("b"), b("1")), (b("a"), b("2")), (b("b"), b("3"))]);
    assert!(m.is_frozen());
    assert_eq!(m.get_update_id(), 0);
    assert_eq!(m.get(b"b"), Some(&b("3")));
    assert_eq!(m.get(b"a"), Some(&b("2")));
    let mut same = StateMap::new(DummyRemote);
    same.push(b("a"), b("2")).unwrap();
    same.push(b("b"), b("3")).unwrap();
    same.freeze().unwrap();
    assert_eq!(m.hash(), same.hash());
}

#[test]
fn server_init_then_serve() {
    let mut core = StateServerCore::new();
    let client = client_map();
    let hash = *client.hash().unwrap();

    // unknown map
    match core.process_request(TcpStateServerRequest::GetUpdateId { hash }) {
        Ok(ServerStep::Respond(r)) => assert!(matches!(read_probe(r), Ok(ProbeOutcome::NeedsInit))),
        _ => panic!(),
    }
    init(&mut core, &client);
    // a second init is a success without work
    let again = init_request(&client).unwrap();
    assert!(matches!(
        core.process_request(again),
        Ok(ServerStep::Respond(TcpStateServerResponse::InitSuccess))
    ));
    match core.process_request(TcpStateServerRequest::GetUpdateId { hash }) {
        Ok(ServerStep::Respond(TcpStateServerResponse::UpdateId { update_id })) => assert_eq!(update_id, 0),
        _ => panic!(),
    }

    // the master changes a value through its hooks
    let master = core.statemap_mut(&hash).unwrap();
    master.set(b("1"), b("Updated Message 1")).unwrap();

    let resp = match core.process_request(TcpStateServerRequest::GetDiff {
        hash,
        from_update_id: 0,
        upto_update_id: 10000,
    }) {
        Ok(ServerStep::Respond(r)) => r,
        _ => panic!(),
    };
    let diff = diff_from_response(resp).unwrap();
    assert_eq!(diff.upto_update_id(), 1);
    let mut replica = client;
    replica.apply_fetched_updates(Ok(diff)).unwrap();
    assert_eq!(replica.get(b"1"), Some(&b("Updated Message 1")));
    assert_eq!(replica.get_update_id(), 1);
}

#[test]
fn server_event_dispatch() {
    let mut core = StateServerCore::new();
    let client = client_map();
    let hash = *client.hash().unwrap();
    assert!(matches!(
        core.process_request(TcpStateServerRequest::Event { hash, evt_data: vec![1, 2] }),
        Ok(ServerStep::Respond(TcpStateServerResponse::HashNotFound))
    ));
    init(&mut core, &client);
    match core.process_request(TcpStateServerRequest::Event { hash, evt_data: vec![1, 2] }) {
        Ok(ServerStep::DispatchEvent { hash: h, evt_data }) => {
            assert_eq!(h, hash);
            assert_eq!(evt_data, vec![1, 2]);
        }
        _ => panic!(),
    }
    assert!(confirm_event(TcpStateServerResponse::EventInProcess).is_ok());
    assert!(matches!(
        confirm_event(TcpStateServerResponse::HashNotFound),
        Err(ReplyError::Unexpected(TcpStateServerResponse::HashNotFound))
    ));
}

#[test]
fn server_hash_mismatch_releases_digest() {
    let mut core = StateServerCore::new();
    let init_data = encode_entries(&vec![(b("a"), b("1"))]).unwrap();
    let req = TcpStateServerRequest::Init { hash: [7u8; 32], init_data: init_data.clone() };
    assert!(matches!(
        core.process_request(req),
        Ok(ServerStep::Respond(TcpStateServerResponse::HashMismatch))
    ));
    // the digest is no longer under way: a retry is checked again
    let req = TcpStateServerRequest::Init { hash: [7u8; 32], init_data };
    assert!(matches!(
        core.process_request(req),
        Ok(ServerStep::Respond(TcpStateServerResponse::HashMismatch))
    ));
    assert!(core.statemap_mut(&[7u8; 32]).is_none());
}

#[test]
fn server_conclude_init() {
    let mut core = StateServerCore::new();
    let client = client_map();
    let hash = *client.hash().unwrap();
    // a failing hook gives up the initialisation
    match core.process_request(init_request(&client).unwrap()) {
        Ok(ServerStep::RunInitHooks { hash: h, statemap }) => {
            match core.conclude_init(h, statemap, Some(String::from("hook failed"))) {
                TcpStateServerResponse::InitFailure { error_message } => {
                    assert_eq!(error_message, "hook failed")
                }
                _ => panic!(),
            }
        }
        _ => panic!(),
    }
    assert!(core.statemap_mut(&hash).is_none());
    // the initialisation can be tried again, and succeeds without a hook error
    match core.process_request(init_request(&client).unwrap()) {
        Ok(ServerStep::RunInitHooks { hash: h, statemap }) => {
            assert!(matches!(
                core.conclude_init(h, statemap, None),
                TcpStateServerResponse::InitSuccess
            ));
        }
        _ => panic!(),
    }
    assert_eq!(core.statemap_mut(&hash).unwrap().get(b"0"), Some(&b("Message 0")));
}

#[test]
fn authorize_checks_password() {
    let req = TcpStateServerRequestWrapper {
        password: b("pw"),
        event: TcpStateServerRequest::GetUpdateId { hash: [3u8; 32] },
    };
    match authorize(b"pw", req) {
        Ok(TcpStateServerRequest::GetUpdateId { hash }) => assert_eq!(hash, [3u8; 32]),
        _ => panic!(),
    }
    let wrong = TcpStateServerRequestWrapper {
        password: b("pwx"),
        event: TcpStateServerRequest::GetUpdateId { hash: [3u8; 32] },
    };
    assert!(matches!(authorize(b"pw", wrong), Err(TcpStateServerResponse::IncorrectPassword)));
    let empty = TcpStateServerRequestWrapper {
        password: Vec::new(),
        event: TcpStateServerRequest::GetUpdateId { hash: [3u8; 32] },
    };
    assert!(matches!(authorize(b"pw", empty), Err(TcpStateServerResponse::IncorrectPassword)));
}

#[test]
fn server_decode_error_and_abort() {
    let mut core = StateServerCore::new();
    let req = TcpStateServerRequest::Init { hash: [1u8; 32], init_data: vec![9] };
    assert!(matches!(core.process_request(req), Err(RequestError::DecodeError(_))));
    let client = client_map();
    let hash = *client.hash().unwrap();
    match core.process_request(init_request(&client).unwrap()) {
        Ok(ServerStep::RunInitHooks { .. }) => core.abort_init(&hash),
        _ => panic!(),
    }
    // after an abort the initialisation can be tried again
    init(&mut core, &client);
}

#[test]
fn server_backward_diff_is_empty() {
    let mut core = StateServerCore::new();
    let client = client_map();
    let hash = *client.hash().unwrap();
    init(&mut core, &client);
    let m = core.statemap_mut(&hash).unwrap();
    m.set(b("0"), b("x")).unwrap();
    m.set(b("0"), b("y")).unwrap();
    match core.process_request(TcpStateServerRequest::GetDiff { hash, from_update_id: 1, upto_update_id: 0 }) {
        Ok(ServerStep::Respond(TcpStateServerResponse::Diff { from_update_id, upto_update_id, is_full, encoded_diff })) => {
            assert_eq!((from_update_id, upto_update_id, is_full), (0, 0, false));
            assert_eq!(encoded_diff, vec![0u8]);
        }
        _ => panic!(),
    }
    assert!(matches!(
        core.process_request(TcpStateServerRequest::GetDiff { hash: [0u8; 32], from_update_id: 0, upto_update_id: 1 }),
        Ok(ServerStep::Respond(TcpStateServerResponse::HashNotFound))
    ));
}

#[test]
fn remote_reply_checks() {
    assert!(confirm_init(TcpStateServerResponse::InitSuccess).is_ok());
    assert!(matches!(
        confirm_init(TcpStateServerResponse::HashMismatch),
        Err(ReplyError::Unexpected(TcpStateServerResponse::HashMismatch))
    ));
    assert!(matches!(
        diff_from_response(TcpStateServerResponse::InitSuccess),
        Err(ReplyError::Unexpected(TcpStateServerResponse::InitSuccess))
    ));
    let bad = TcpStateServerResponse::Diff { from_update_id: 0, upto_update_id: 1, is_full: false, encoded_diff: vec![3] };
    assert!(matches!(diff_from_response(bad), Err(ReplyError::Decode(_))));
    let encoded = encode_entries(&vec![(b("k"), b("v"))]).unwrap();
    let good = TcpStateServerResponse::Diff { from_update_id: 2, upto_update_id: 5, is_full: true, encoded_diff: encoded };
    let d: Diff = diff_from_response(good).unwrap();
    assert_eq!(d.get_diff(), &vec![(b("k"), b("v"))]);
    assert!(d.is_full_update());
    assert_eq!(d.from_update_id(), 2);
    assert_eq!(d.upto_update_id(), 5);
}

#[test]
fn read_probe_classifies_answers() {
    assert!(matches!(
        read_probe(TcpStateServerResponse::UpdateId { update_id: 4 }),
        Ok(ProbeOutcome::Hosted)
    ));
    assert!(matches!(read_probe(TcpStateServerResponse::HashNotFound), Ok(ProbeOutcome::NeedsInit)));
    assert!(matches!(
        read_probe(TcpStateServerResponse::IncorrectPassword),
        Err(ReplyError::Unexpected(TcpStateServerResponse::IncorrectPassword))
    ));
}
