use dqache::cache::{Cache, Entry, SetOutcome};
use dqache::model::Model;
use dqache::protocol::{
    check_handshake, del_reply, encode_hello, encode_request, encode_response, finish_get,
    parse_request, parse_response, FrameError, HandshakeOutcome, Request, Response, ServerError,
    Version, VersionError,
};

#[test]
fn version_new_and_as_bytes() {
    let v = Version::new(1, 2, 3);
    assert_eq!(v.as_bytes(), [1, 2, 3]);
}

#[test]
fn version_from_bytes_needs_three() {
    let v = Version::from_bytes(&[1, 2, 3]).expect("three bytes");
    assert_eq!(v.as_bytes(), [1, 2, 3]);
    assert_eq!(Version::from_bytes(&[1, 2]), Err(VersionError::WrongLength));
    assert_eq!(Version::from_bytes(&[1, 2, 3, 4]), Err(VersionError::WrongLength));
}

#[test]
fn version_parse_components_default_to_zero() {
    assert_eq!(Version::parse(b"1").unwrap().as_bytes(), [1, 0, 0]);
    assert_eq!(Version::parse(b"1.2").unwrap().as_bytes(), [1, 2, 0]);
    assert_eq!(Version::parse(b"1.2.3").unwrap().as_bytes(), [1, 2, 3]);
    assert_eq!(Version::parse(b"0.10.255").unwrap().as_bytes(), [0, 10, 255]);
}

#[test]
fn version_parse_rejects_bad_components() {
    assert_eq!(Version::parse(b""), Err(VersionError::BadNumber));
    assert_eq!(Version::parse(b"256"), Err(VersionError::BadNumber));
    assert_eq!(Version::parse(b"1..2"), Err(VersionError::BadNumber));
    assert_eq!(Version::parse(b"1.x"), Err(VersionError::BadNumber));
    assert_eq!(Version::parse(b"1.2.3.4"), Err(VersionError::BadNumber));
    assert_eq!(Version::parse(b"1.2."), Err(VersionError::BadNumber));
}

#[test]
fn version_order_is_lexicographic() {
    let a = Version::new(1, 0, 0);
    let b = Version::new(1, 0, 1);
    let c = Version::new(1, 1, 0);
    let d = Version::new(2, 0, 0);
    assert!(a.le(&a));
    assert!(a.le(&b) && !b.le(&a));
    assert!(b.le(&c) && !c.le(&b));
    assert!(c.le(&d) && !d.le(&c));
    assert!(a.le(&d));
}

#[test]
fn nop_request_and_ok_reply_bytes() {
    // client sends 02; server replies 82
    let (req, used) = parse_request(&[0x02]).expect("nop");
    assert_eq!(req, Request::Nop);
    assert_eq!(used, 1);
    assert_eq!(encode_response(&Response::Okay), vec![0x82]);
}

#[test]
fn set_then_get_wire_scenario() {
    // 03 03 'a' 'b' 'c' 00 00 00 02 'x' 'y' stores xy under abc
    let frame = [0x03, 0x03, b'a', b'b', b'c', 0x00, 0x00, 0x00, 0x02, b'x', b'y'];
    let (req, used) = parse_request(&frame).expect("set frame");
    assert_eq!(used, frame.len());
    let (key, value) = match req {
        Request::Put { key, value } => (key, value),
        other => panic!("wrong request: {:?}", other),
    };
    assert_eq!(key, b"abc".to_vec());
    assert_eq!(value, b"xy".to_vec());

    let mut cache = Cache::new(Model::LeastRecentlyUsed, 4);
    assert_eq!(cache.set(&key, Entry::new(value, 100)), SetOutcome::Stored);

    // 05 03 'a' 'b' 'c' reads it back; the reply is 83 00 00 00 02 'x' 'y'
    let get_frame = [0x05, 0x03, b'a', b'b', b'c'];
    let (get_req, get_used) = parse_request(&get_frame).expect("get frame");
    assert_eq!(get_used, get_frame.len());
    let get_key = match get_req {
        Request::Get { key } => key,
        other => panic!("wrong request: {:?}", other),
    };
    let hit = cache.get(&get_key, 101).expect("cache hit").value.clone();
    let reply = encode_response(&Response::Value { value: hit });
    assert_eq!(reply, vec![0x83, 0x00, 0x00, 0x00, 0x02, b'x', b'y']);
}

#[test]
fn get_miss_replies_key_must_exist() {
    let mut cache = Cache::new(Model::LeastRecentlyUsed, 4);
    assert!(cache.get(b"abc", 100).is_none());
    let r = finish_get(&mut cache, b"abc", None, 100);
    assert_eq!(r, Err(ServerError::KeyNotFound));
    let message = ServerError::KeyNotFound.message();
    assert_eq!(message, b"key must exist".to_vec());
    let reply = encode_response(&Response::Error { message });
    let mut expected = vec![0x84, 0x00, 0x00, 0x00, 14];
    expected.extend_from_slice(b"key must exist");
    assert_eq!(reply, expected);
}

#[test]
fn del_absent_is_same_error() {
    assert_eq!(del_reply(true), Ok(()));
    assert_eq!(del_reply(false), Err(ServerError::KeyNotFound));
    assert_eq!(ServerError::KeyNotFound.message(), b"key must exist".to_vec());
}

#[test]
fn get_miss_with_storage_hit_promotes() {
    let mut cache = Cache::new(Model::LeastRecentlyUsed, 4);
    let (value, outcome) =
        finish_get(&mut cache, b"abc", Some(b"xy".to_vec()), 100).expect("storage hit");
    assert_eq!(value, b"xy".to_vec());
    assert_eq!(outcome, SetOutcome::Stored);
    let hit = cache.get(b"abc", 101).expect("promoted");
    assert_eq!(hit.value, b"xy".to_vec());
}

#[test]
fn handshake_accepts_equal_or_older() {
    let server = Version::new(1, 0, 0);
    let same = check_handshake(&server, &[0x00, 1, 0, 0]);
    assert_eq!(same, HandshakeOutcome::Accepted { version: Version::new(1, 0, 0) });
    let older = check_handshake(&server, &[0x00, 0, 9, 9]);
    assert_eq!(older, HandshakeOutcome::Accepted { version: Version::new(0, 9, 9) });
}

#[test]
fn handshake_version_too_new_is_rejected() {
    // server 1.0.0, client hello 2.0.0: rejected with the server's limit named
    let server = Version::new(1, 0, 0);
    let hello = encode_hello(&Version::new(2, 0, 0));
    assert_eq!(hello, vec![0x00, 2, 0, 0]);
    let r = check_handshake(&server, &hello);
    assert_eq!(r, HandshakeOutcome::TooNew);
    let message = ServerError::VersionTooNew { limit: server }.message();
    assert_eq!(message, b"client version must be less than or equal to 1.0.0".to_vec());
}

#[test]
fn handshake_demands_hello_opcode() {
    let server = Version::new(1, 0, 0);
    assert_eq!(check_handshake(&server, &[0x02, 1, 0, 0]), HandshakeOutcome::NotHello);
    assert_eq!(
        ServerError::NotHello.message(),
        b"handshake must start with HELLO operation".to_vec()
    );
}

#[test]
fn request_round_trips() {
    let frames = vec![
        Request::Nop,
        Request::Quit,
        Request::Get { key: b"k".to_vec() },
        Request::Del { key: b"key".to_vec() },
        Request::Put { key: b"abc".to_vec(), value: b"some value".to_vec() },
    ];
    for req in frames {
        let bytes = encode_request(&req);
        let (back, used) = parse_request(&bytes).expect("round trip");
        assert_eq!(used, bytes.len());
        assert_eq!(back, req);
    }
}

#[test]
fn response_round_trips() {
    let frames = vec![
        Response::Ready { version: Version::new(1, 0, 0) },
        Response::Okay,
        Response::Quit,
        Response::Value { value: b"xy".to_vec() },
        Response::Error { message: b"key must exist".to_vec() },
    ];
    for resp in frames {
        let bytes = encode_response(&resp);
        let (back, used) = parse_response(&bytes).expect("round trip");
        assert_eq!(used, bytes.len());
        assert_eq!(back, resp);
    }
}

#[test]
fn parse_rejects_unknown_opcode() {
    assert_eq!(parse_request(&[0x01]), Err(FrameError::BadOpcode));
    assert_eq!(parse_request(&[0x80]), Err(FrameError::BadOpcode));
    assert_eq!(parse_response(&[0x05]), Err(FrameError::BadOpcode));
    assert_eq!(ServerError::BadOpcode.message(), b"operation must be valid".to_vec());
}

#[test]
fn parse_rejects_zero_lengths() {
    assert_eq!(parse_request(&[0x05, 0x00]), Err(FrameError::ZeroLength));
    assert_eq!(
        parse_request(&[0x03, 0x01, b'a', 0x00, 0x00, 0x00, 0x00]),
        Err(FrameError::ZeroLength)
    );
    assert_eq!(
        ServerError::ZeroLength.message(),
        b"length must be greater than 0".to_vec()
    );
}

#[test]
fn parse_reports_incomplete_frames() {
    assert_eq!(parse_request(&[]), Err(FrameError::Incomplete));
    assert_eq!(parse_request(&[0x05, 0x03, b'a']), Err(FrameError::Incomplete));
    assert_eq!(
        parse_request(&[0x03, 0x01, b'a', 0x00, 0x00]),
        Err(FrameError::Incomplete)
    );
    assert_eq!(
        parse_request(&[0x03, 0x01, b'a', 0x00, 0x00, 0x00, 0x02, b'x']),
        Err(FrameError::Incomplete)
    );
    assert_eq!(parse_response(&[0x80, 1, 0]), Err(FrameError::Incomplete));
}

#[test]
fn remaining_fault_messages() {
    assert_eq!(
        ServerError::StorageFull.message(),
        b"storage must have free space".to_vec()
    );
    assert_eq!(
        ServerError::TimedOut.message(),
        b"packet must be sent in time".to_vec()
    );
    assert_eq!(
        ServerError::OutOfMemory.message(),
        b"memory must have free space".to_vec()
    );
    assert_eq!(
        ServerError::EmptyCache.message(),
        b"entries length must be greater than 0".to_vec()
    );
}

#[test]
fn ready_banner_bytes() {
    let banner = encode_response(&Response::Ready { version: Version::new(1, 0, 0) });
    assert_eq!(banner, vec![0x80, 1, 0, 0]);
}
