use aleo_pool_server::codec::{DecodeError, StratumCodec};
use aleo_pool_server::message::{MessageId, ResponseElem, ResponseParams, StratumMessage};

fn codec() -> StratumCodec {
    StratumCodec::default()
}

#[test]
fn subscribe_accepted_reply_is_bit_exact() {
    let pool = b"aleo1pooladdress".to_vec();
    let msg = StratumMessage::Response(
        MessageId::Num(1),
        Some(ResponseParams::Array(vec![
            ResponseElem::Null,
            ResponseElem::Null,
            ResponseElem::Str(pool),
        ])),
        None,
    );
    let mut out = Vec::new();
    codec().encode(&msg, &mut out);
    assert_eq!(
        out,
        b"{\"jsonrpc\":\"2.0\",\"result\":[null,null,\"aleo1pooladdress\"],\"id\":1}\n".to_vec()
    );
}

#[test]
fn subscribe_frame_decodes() {
    let mut buf = b"{\"jsonrpc\":\"2.0\",\"id\":1,\"method\":\"mining.subscribe\",\"params\":[\"miner/1.0\",\"AleoStratum/2.0.0\",null]}\n".to_vec();
    let got = codec().decode(&mut buf).unwrap().unwrap();
    match got {
        StratumMessage::Subscribe(MessageId::Num(1), ua, pv, sess) => {
            assert_eq!(ua, b"miner/1.0".to_vec());
            assert_eq!(pv, b"AleoStratum/2.0.0".to_vec());
            assert!(sess.is_none());
        }
        _ => panic!("wrong message"),
    }
    assert!(buf.is_empty());
}

#[test]
fn notify_and_set_target_encode() {
    let msg = StratumMessage::Notify(b"0a000000".to_vec(), b"abcd".to_vec(), None, true);
    let mut out = Vec::new();
    codec().encode(&msg, &mut out);
    assert_eq!(
        out,
        b"{\"jsonrpc\":\"2.0\",\"method\":\"mining.notify\",\"params\":[\"0a000000\",\"abcd\",null,true]}\n"
            .to_vec()
    );
    let msg = StratumMessage::SetTarget(12345);
    let mut out = Vec::new();
    codec().encode(&msg, &mut out);
    assert_eq!(
        out,
        b"{\"jsonrpc\":\"2.0\",\"method\":\"mining.set_target\",\"params\":[12345]}\n".to_vec()
    );
}

#[test]
fn round_trips_through_the_wire() {
    let samples = vec![
        StratumMessage::Subscribe(
            MessageId::Num(7),
            b"agent \"quoted\"\\slash".to_vec(),
            b"AleoStratum/2.0.0".to_vec(),
            Some(b"sess".to_vec()),
        ),
        StratumMessage::Authorize(MessageId::Str(b"abc".to_vec()), b"worker".to_vec(), b"pw".to_vec()),
        StratumMessage::SetTarget(u64::MAX),
        StratumMessage::Notify(b"job".to_vec(), b"chal\nlenge".to_vec(), Some(b"addr".to_vec()), false),
        StratumMessage::Submit(
            MessageId::Num(0),
            b"w".to_vec(),
            b"0a000000".to_vec(),
            b"0102030405060708".to_vec(),
            b"cc".to_vec(),
            b"dd".to_vec(),
        ),
        StratumMessage::Response(MessageId::Num(2), Some(ResponseParams::Bool(true)), None),
    ];
    for msg in samples {
        let mut wire = Vec::new();
        codec().encode(&msg, &mut wire);
        let mut buf = wire.clone();
        let back = codec().decode(&mut buf).unwrap().unwrap();
        let mut rewire = Vec::new();
        codec().encode(&back, &mut rewire);
        assert_eq!(wire, rewire);
    }
}

#[test]
fn error_response_round_trips() {
    let msg = StratumMessage::Response(
        MessageId::Num(3),
        None,
        Some(aleo_pool_server::message::RpcError {
            code: -32600,
            message: b"Invalid Request".to_vec(),
        }),
    );
    let mut wire = Vec::new();
    codec().encode(&msg, &mut wire);
    assert_eq!(
        wire,
        b"{\"jsonrpc\":\"2.0\",\"error\":{\"code\":-32600,\"message\":\"Invalid Request\"},\"id\":3}\n"
            .to_vec()
    );
    let mut buf = wire.clone();
    let back = codec().decode(&mut buf).unwrap().unwrap();
    match back {
        StratumMessage::Response(MessageId::Num(3), None, Some(e)) => {
            assert_eq!(e.code, -32600);
            assert_eq!(e.message, b"Invalid Request".to_vec());
        }
        _ => panic!("wrong message"),
    }
}

#[test]
fn malformed_frames_are_refused() {
    // not an object
    let mut buf = b"[1,2]\n".to_vec();
    assert_eq!(codec().decode(&mut buf), Err(DecodeError::Malformed));
    // unknown method
    let mut buf =
        b"{\"jsonrpc\":\"2.0\",\"id\":1,\"method\":\"mining.unknown\",\"params\":[]}\n".to_vec();
    assert_eq!(codec().decode(&mut buf), Err(DecodeError::Malformed));
    // missing params
    let mut buf = b"{\"jsonrpc\":\"2.0\",\"id\":1,\"method\":\"mining.subscribe\"}\n".to_vec();
    assert_eq!(codec().decode(&mut buf), Err(DecodeError::Malformed));
    // wrong jsonrpc version
    let mut buf =
        b"{\"jsonrpc\":\"1.0\",\"id\":1,\"method\":\"mining.set_target\",\"params\":[1]}\n".to_vec();
    assert_eq!(codec().decode(&mut buf), Err(DecodeError::Malformed));
    // bad json
    let mut buf = b"{\"jsonrpc\"\n".to_vec();
    assert_eq!(codec().decode(&mut buf), Err(DecodeError::Malformed));
    // response without result or error
    let mut buf = b"{\"jsonrpc\":\"2.0\",\"id\":1}\n".to_vec();
    assert_eq!(codec().decode(&mut buf), Err(DecodeError::Malformed));
}

#[test]
fn partial_and_oversized_buffers() {
    // no newline yet: wait
    let mut buf = b"{\"jsonrpc\":\"2.0\"".to_vec();
    assert_eq!(codec().decode(&mut buf), Ok(None));
    // an overlong line without a newline is refused
    let mut buf = vec![b'a'; 5000];
    assert_eq!(codec().decode(&mut buf), Err(DecodeError::Malformed));
}

#[test]
fn set_target_rejects_non_u64_numbers() {
    let mut buf =
        b"{\"jsonrpc\":\"2.0\",\"id\":1,\"method\":\"mining.set_target\",\"params\":[1.5]}\n".to_vec();
    assert_eq!(codec().decode(&mut buf), Err(DecodeError::Malformed));
    let mut buf =
        b"{\"jsonrpc\":\"2.0\",\"id\":1,\"method\":\"mining.set_target\",\"params\":[-3]}\n".to_vec();
    assert_eq!(codec().decode(&mut buf), Err(DecodeError::Malformed));
}

#[test]
fn response_array_elides_unsupported_kinds() {
    let mut buf = b"{\"jsonrpc\":\"2.0\",\"result\":[null,\"x\",7,{\"y\":1},1.5],\"id\":1}\n".to_vec();
    let got = codec().decode(&mut buf).unwrap().unwrap();
    match got {
        StratumMessage::Response(MessageId::Num(1), Some(ResponseParams::Array(a)), None) => {
            assert_eq!(a.len(), 4);
            assert!(matches!(a[0], ResponseElem::Null));
            assert!(matches!(a[1], ResponseElem::Str(_)));
            assert!(matches!(a[2], ResponseElem::Num(7)));
            // a non-integer number reads as a null, as the wire peers do
            assert!(matches!(a[3], ResponseElem::Null));
        }
        _ => panic!("wrong message"),
    }
}

#[test]
fn string_escapes_round_trip() {
    let msg = StratumMessage::Authorize(
        MessageId::Num(9),
        vec![0x01u8, 0x02, b'"', b'\\', 0x1f, b'z'],
        b"pw".to_vec(),
    );
    let mut wire = Vec::new();
    codec().encode(&msg, &mut wire);
    let mut buf = wire.clone();
    let back = codec().decode(&mut buf).unwrap().unwrap();
    match back {
        StratumMessage::Authorize(MessageId::Num(9), w, p) => {
            assert_eq!(w, vec![0x01u8, 0x02, b'"', b'\\', 0x1f, b'z']);
            assert_eq!(p, b"pw".to_vec());
        }
        _ => panic!("wrong message"),
    }
}

#[test]
fn unicode_escapes_decode() {
    let mut buf =
        b"{\"jsonrpc\":\"2.0\",\"id\":1,\"method\":\"mining.authorize\",\"params\":[\"\\u00e9\\uD83D\\uDE00\",\"p\"]}\n"
            .to_vec();
    let got = codec().decode(&mut buf).unwrap().unwrap();
    match got {
        StratumMessage::Authorize(_, w, _) => {
            assert_eq!(w, "\u{e9}\u{1F600}".as_bytes().to_vec());
        }
        _ => panic!("wrong message"),
    }
}

#[test]
fn decode_agrees_with_reference_json_parser() {
    // spot-check the JSON layer against the ecosystem parser
    let frames: Vec<&[u8]> = vec![
        b"{\"a\":1,\"b\":[true,null,\"x\"]}",
        b"{\"nested\":{\"deep\":[[1],[2,3]]}}",
        b"  [1, 2 , 3]  ",
        b"\"just a string\"",
        b"12.5e3",
        b"{\"bad\":01}",
        b"[1,]",
        b"{\"x\":1,}",
    ];
    for f in frames {
        let ours = aleo_pool_server::json::parse_json_x(&f.to_vec()).is_ok();
        let theirs = serde_json::from_slice::<serde_json::Value>(f).is_ok();
        assert_eq!(ours, theirs, "disagree on {:?}", String::from_utf8_lossy(f));
    }
}
