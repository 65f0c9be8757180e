use memd::client::{fetch_result, store_result};
use memd::codec::{ReqMemMsg, ResMemMsg};
use memd::daemon::DaemonCore;

fn req_frame(r: ReqMemMsg) -> Vec<u8> {
    r.encode().unwrap()
}

#[test]
fn scenario_store_then_fetch() {
    let mut d = DaemonCore::new();
    let resp = d.handle_frame(&req_frame(ReqMemMsg::StoreKeyVal(
        "foo".to_string(),
        "bar".to_string(),
    )));
    assert_eq!(
        ResMemMsg::decode(&resp).unwrap(),
        ResMemMsg::KeySaved("Key:Val saved in mem".to_string())
    );
    let resp = d.handle_frame(&req_frame(ReqMemMsg::FetchKey("foo".to_string())));
    assert_eq!(
        ResMemMsg::decode(&resp).unwrap(),
        ResMemMsg::KeyValue("bar".to_string())
    );
}

#[test]
fn scenario_fetch_missing_key() {
    let mut d = DaemonCore::new();
    let resp = d.handle_frame(&req_frame(ReqMemMsg::FetchKey("missing".to_string())));
    assert_eq!(
        ResMemMsg::decode(&resp).unwrap(),
        ResMemMsg::KeyNotFound("key not found".to_string())
    );
}

#[test]
fn scenario_short_frame_fails_and_daemon_keeps_serving() {
    let mut d = DaemonCore::new();
    // the frame declares 16 payload bytes but only one was sent
    let resp = d.handle_frame(&[0x00, 0x10, 0x01]);
    assert_eq!(
        ResMemMsg::decode(&resp).unwrap(),
        ResMemMsg::FailToDes("not of acceptable request message format".to_string())
    );
    // the next connection is served normally
    let resp = d.handle_frame(&req_frame(ReqMemMsg::StoreKeyVal(
        "k".to_string(),
        "v".to_string(),
    )));
    assert_eq!(
        ResMemMsg::decode(&resp).unwrap(),
        ResMemMsg::KeySaved("Key:Val saved in mem".to_string())
    );
    let resp = d.handle_frame(&req_frame(ReqMemMsg::FetchKey("k".to_string())));
    assert_eq!(
        ResMemMsg::decode(&resp).unwrap(),
        ResMemMsg::KeyValue("v".to_string())
    );
}

#[test]
fn scenario_overwrite_returns_latest() {
    let mut d = DaemonCore::new();
    d.handle_frame(&req_frame(ReqMemMsg::StoreKeyVal("k".to_string(), "v1".to_string())));
    d.handle_frame(&req_frame(ReqMemMsg::StoreKeyVal("k".to_string(), "v2".to_string())));
    let resp = d.handle_frame(&req_frame(ReqMemMsg::FetchKey("k".to_string())));
    assert_eq!(
        ResMemMsg::decode(&resp).unwrap(),
        ResMemMsg::KeyValue("v2".to_string())
    );
}

#[test]
fn garbage_bytes_earn_a_decode_failure_response() {
    let mut d = DaemonCore::new();
    let resp = d.handle_frame(&[0x00, 0x04, 0x09, 0x00, 0x01, b'a']);
    assert_eq!(
        ResMemMsg::decode(&resp).unwrap(),
        ResMemMsg::FailToDes("not of acceptable request message format".to_string())
    );
    let resp = d.handle_frame(&[]);
    assert_eq!(
        ResMemMsg::decode(&resp).unwrap(),
        ResMemMsg::FailToDes("not of acceptable request message format".to_string())
    );
}

#[test]
fn client_text_for_fetch_responses() {
    assert_eq!(fetch_result(ResMemMsg::KeyValue("bar".to_string())), "bar".to_string());
    assert_eq!(
        fetch_result(ResMemMsg::KeyNotFound("key not found".to_string())),
        "key not found".to_string()
    );
    assert_eq!(
        fetch_result(ResMemMsg::KeySaved("whatever".to_string())),
        "some problem".to_string()
    );
    assert_eq!(
        fetch_result(ResMemMsg::FailToDes("bad".to_string())),
        "some problem".to_string()
    );
}

#[test]
fn client_text_for_store_responses() {
    assert_eq!(
        store_result(ResMemMsg::KeySaved("Key:Val saved in mem".to_string())),
        "Key:Val saved in mem".to_string()
    );
    assert_eq!(
        store_result(ResMemMsg::KeyValue("bar".to_string())),
        "some problem".to_string()
    );
    assert_eq!(
        store_result(ResMemMsg::FailToDes("bad".to_string())),
        "some problem".to_string()
    );
}
