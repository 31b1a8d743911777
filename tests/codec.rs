use bittorrent_client::bencode::{decode, encode, BencodeError, Value};
use bittorrent_client::wire::{FrameError, Message, MessageFramer, MessageTag};

fn dict(entries: Vec<(&str, Value)>) -> Value {
    Value::Dict(entries.into_iter().map(|(k, v)| (k.as_bytes().to_vec(), v)).collect())
}

#[test]
fn bencode_round_trip_nested() {
    let v = dict(vec![
        ("a", Value::Int(-42)),
        ("b", Value::Bytes(b"spam".to_vec())),
        ("c", Value::List(vec![Value::Int(0), Value::Bytes(vec![]), Value::List(vec![])])),
        ("d", dict(vec![("x", Value::Int(i64::MIN)), ("y", Value::Int(i64::MAX))])),
    ]);
    let bytes = encode(&v);
    let back = decode(&bytes).unwrap();
    assert_eq!(encode(&back), bytes);
    assert_eq!(format!("{:?}", back), format!("{:?}", v));
}

#[test]
fn bencode_encodes_canonical_bytes() {
    let v = dict(vec![
        ("cow", Value::Bytes(b"moo".to_vec())),
        ("spam", Value::List(vec![Value::Bytes(b"a".to_vec()), Value::Int(12)])),
    ]);
    assert_eq!(encode(&v), b"d3:cow3:moo4:spaml1:ai12eee".to_vec());
    assert_eq!(encode(&Value::Int(0)), b"i0e".to_vec());
    assert_eq!(encode(&Value::Int(-7)), b"i-7e".to_vec());
}

#[test]
fn bencode_keeps_key_order_of_input() {
    let input = b"d1:bi1e1:ai2ee";
    let v = decode(input).unwrap();
    assert_eq!(encode(&v), input.to_vec());
}

#[test]
fn bencode_rejects_malformed_input() {
    assert_eq!(decode(b"i03e").unwrap_err(), BencodeError::Malformed { offset: 1 });
    assert_eq!(decode(b"i-0e").unwrap_err(), BencodeError::Malformed { offset: 2 });
    assert_eq!(decode(b"ie").unwrap_err(), BencodeError::Malformed { offset: 1 });
    assert_eq!(decode(b"li1e").unwrap_err(), BencodeError::UnexpectedEnd);
    assert_eq!(decode(b"5:abc").unwrap_err(), BencodeError::UnexpectedEnd);
    assert_eq!(decode(b"i1ex").unwrap_err(), BencodeError::TrailingGarbage { offset: 3 });
    assert_eq!(decode(b"x").unwrap_err(), BencodeError::Malformed { offset: 0 });
    assert_eq!(decode(b"").unwrap_err(), BencodeError::UnexpectedEnd);
    assert_eq!(decode(b"di1ei2ee").unwrap_err(), BencodeError::Malformed { offset: 1 });
    assert_eq!(decode(b"i9223372036854775808e").unwrap_err(), BencodeError::Malformed { offset: 1 });
    assert!(matches!(decode(b"i-9223372036854775808e"), Ok(Value::Int(i64::MIN))));
}

#[test]
fn frame_encodes_request() {
    let m = Message::Request { index: 3, begin: 16384, length: 16384 };
    assert_eq!(
        m.as_bytes(),
        vec![0, 0, 0, 0x0D, 6, 0, 0, 0, 3, 0, 0, 0x40, 0, 0, 0, 0x40, 0]
    );
    let mut framer = MessageFramer::new();
    let mut out = Vec::new();
    framer.encode(m, &mut out).unwrap();
    assert_eq!(out, vec![0, 0, 0, 0x0D, 6, 0, 0, 0, 3, 0, 0, 0x40, 0, 0, 0, 0x40, 0]);
}

fn all_messages() -> Vec<Message> {
    vec![
        Message::KeepAlive,
        Message::Choke,
        Message::Unchoke,
        Message::Interested,
        Message::NotInterested,
        Message::Have(7),
        Message::Bitfield(vec![0b1010_0000, 0xff]),
        Message::Request { index: 1, begin: 2, length: 3 },
        Message::Piece { index: 9, begin: 16384, block: vec![1, 2, 3, 4] },
        Message::Cancel { index: 4, begin: 5, length: 6 },
        Message::Port(6881),
    ]
}

#[test]
fn frame_round_trip_every_variant() {
    let mut framer = MessageFramer::new();
    for m in all_messages() {
        let mut buf = m.as_bytes();
        buf.extend_from_slice(&[0xAA, 0xBB]);
        let got = framer.decode(&mut buf).unwrap().unwrap();
        assert_eq!(format!("{:?}", got), format!("{:?}", m));
        assert_eq!(buf, vec![0xAA, 0xBB]);
    }
}

#[test]
fn frame_decode_waits_for_more_bytes() {
    let mut framer = MessageFramer::new();
    let mut buf = vec![0, 0, 0];
    assert!(framer.decode(&mut buf).unwrap().is_none());
    assert_eq!(buf, vec![0, 0, 0]);
    let mut buf = vec![0, 0, 0, 5, 4, 0, 0];
    assert!(framer.decode(&mut buf).unwrap().is_none());
    assert_eq!(buf.len(), 7);
}

#[test]
fn frame_decode_errors() {
    let mut framer = MessageFramer::new();
    let mut buf = vec![0, 0, 0, 1, 42];
    assert_eq!(framer.decode(&mut buf).unwrap_err(), FrameError::UnknownMessageTag(42));
    let mut buf = vec![0, 0, 0, 2, 4, 1];
    assert_eq!(framer.decode(&mut buf).unwrap_err(), FrameError::InvalidPayload(4));
    let mut buf = vec![0, 0x10, 0, 0, 7];
    assert_eq!(framer.decode(&mut buf).unwrap_err(), FrameError::FrameTooLarge);
}

#[test]
fn frame_encode_refuses_oversized_payload() {
    let mut framer = MessageFramer::new();
    let mut out = vec![9];
    let big = Message::Bitfield(vec![0; 262144]);
    assert_eq!(framer.encode(big, &mut out).unwrap_err(), FrameError::FrameTooLarge);
    assert_eq!(out, vec![9]);
}

#[test]
fn message_payload_parsing() {
    assert!(matches!(Message::from_bytes(&[4, 0, 0, 1, 0]), Some(Message::Have(256))));
    assert!(matches!(Message::from_bytes(&[9, 0x1A, 0xE1]), Some(Message::Port(6881))));
    assert!(Message::from_bytes(&[6, 0, 0]).is_none());
    assert!(matches!(Message::from_bytes(&[]), Some(Message::KeepAlive)));
    assert_eq!(MessageTag::from_byte(7), Some(MessageTag::Piece));
    assert_eq!(MessageTag::Cancel.byte(), 8);
    assert_eq!(MessageTag::from_byte(10), None);
}
