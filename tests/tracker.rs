use bittorrent_client::bencode::{encode, Value};
use bittorrent_client::metainfo::{Torrent, TorrentInfo};
use bittorrent_client::tracker::{
    announce_request, compact_peers, connect_request, parse_announce_response,
    parse_compact_peers, parse_connect_response, parse_tracker_response, urlencode, Peer,
    TrackerError, TrackerRequest, TrackerResponse,
};

fn request() -> TrackerRequest {
    let t = Torrent::new(
        b"http://tracker.local/announce".to_vec(),
        TorrentInfo::new(b"x".to_vec(), 16384, vec![0; 20], 11),
        [0xAB; 20],
    );
    TrackerRequest::new(&t, *b"-CRAB01-abcdefghijkl")
}

#[test]
fn urlencode_every_byte() {
    assert_eq!(urlencode(&[0x00, 0xAB, b'a', 0x7f]), "%00%AB%61%7F");
    assert_eq!(urlencode(&[]), "");
}

#[test]
fn announce_url_layout() {
    let url = String::from_utf8(request().build_url()).unwrap();
    let hash = "%AB".repeat(20);
    let id = urlencode(b"-CRAB01-abcdefghijkl");
    assert_eq!(
        url,
        format!(
            "http://tracker.local/announce?info_hash={}&peer_id={}&port=6881&uploaded=0&downloaded=0&left=11&compact=1",
            hash, id
        )
    );
}

#[test]
fn http_response_peers() {
    let body = encode(&Value::Dict(vec![
        (b"interval".to_vec(), Value::Int(1800)),
        (b"peers".to_vec(), Value::Bytes(vec![192, 0, 2, 10, 0x1A, 0xE1, 10, 0, 0, 1, 0, 80])),
    ]));
    let r: TrackerResponse = parse_tracker_response(&body).unwrap();
    assert_eq!(r.interval, 1800);
    assert_eq!(r.peers.len(), 2);
    assert_eq!(r.peers[0].ip, [192, 0, 2, 10]);
    assert_eq!(r.peers[0].port, 6881);
    assert_eq!(r.peers[1].port, 80);
}

#[test]
fn http_response_failure_reason() {
    let body = encode(&Value::Dict(vec![(b"failure reason".to_vec(), Value::Bytes(b"nope".to_vec()))]));
    match parse_tracker_response(&body) {
        Err(TrackerError::Rejected(m)) => assert_eq!(m, b"nope".to_vec()),
        other => panic!("unexpected {:?}", other),
    }
    let body = encode(&Value::Dict(vec![(b"interval".to_vec(), Value::Int(5))]));
    assert!(matches!(parse_tracker_response(&body), Err(TrackerError::MissingPeers)));
    let body = encode(&Value::Dict(vec![
        (b"interval".to_vec(), Value::Int(5)),
        (b"peers".to_vec(), Value::Bytes(vec![1, 2, 3])),
    ]));
    assert!(matches!(parse_tracker_response(&body), Err(TrackerError::BadPeers)));
    assert!(matches!(parse_tracker_response(b"le"), Err(TrackerError::NotADictionary)));
    assert!(matches!(parse_tracker_response(b"l"), Err(TrackerError::Bencode(_))));
    let body = encode(&Value::Dict(vec![(b"peers".to_vec(), Value::Bytes(vec![]))]));
    assert!(matches!(parse_tracker_response(&body), Err(TrackerError::MissingInterval)));
}

#[test]
fn compact_peers_round_trip() {
    let peers = vec![Peer::new([192, 0, 2, 10], 6881), Peer::new([192, 0, 2, 11], 6881)];
    let bytes = compact_peers(&peers);
    assert_eq!(bytes, vec![192, 0, 2, 10, 0x1A, 0xE1, 192, 0, 2, 11, 0x1A, 0xE1]);
    let back = parse_compact_peers(&bytes).unwrap();
    assert_eq!(back[1].ip, [192, 0, 2, 11]);
    assert!(parse_compact_peers(&bytes[..5]).is_none());
}

#[test]
fn udp_tracker_exchange() {
    let txn = 0xDEADBEEF;
    assert_eq!(
        connect_request(txn),
        vec![0, 0, 0x04, 0x17, 0x27, 0x10, 0x19, 0x80, 0, 0, 0, 0, 0xDE, 0xAD, 0xBE, 0xEF]
    );
    let mut resp = vec![0, 0, 0, 0, 0xDE, 0xAD, 0xBE, 0xEF];
    resp.extend_from_slice(&[1, 2, 3, 4, 5, 6, 7, 8]);
    let conn = parse_connect_response(&resp, txn).unwrap();
    assert_eq!(conn, 0x0102030405060708);
    assert!(matches!(parse_connect_response(&resp, 1), Err(TrackerError::Protocol)));
    assert!(matches!(parse_connect_response(&resp[..15], txn), Err(TrackerError::Protocol)));

    let req = request();
    let a = announce_request(conn, txn, &req);
    assert_eq!(a.len(), 98);
    assert_eq!(&a[..8], &[1, 2, 3, 4, 5, 6, 7, 8]);
    assert_eq!(&a[8..12], &[0, 0, 0, 1]);
    assert_eq!(&a[12..16], &[0xDE, 0xAD, 0xBE, 0xEF]);
    assert_eq!(&a[16..36], &[0xAB; 20]);
    assert_eq!(&a[64..72], &[0, 0, 0, 0, 0, 0, 0, 11]);
    assert_eq!(&a[92..96], &[0xff; 4]);
    assert_eq!(&a[96..98], &[0x1A, 0xE1]);

    let mut ann = vec![0, 0, 0, 1, 0xDE, 0xAD, 0xBE, 0xEF, 0, 0, 7, 8, 0, 0, 0, 1, 0, 0, 0, 2];
    ann.extend_from_slice(&[192, 0, 2, 10, 0x1A, 0xE1, 192, 0, 2, 11, 0x1A, 0xE1]);
    let r = parse_announce_response(&ann, txn).unwrap();
    assert_eq!(r.interval, 0x0708);
    assert_eq!(r.peers.len(), 2);
    assert_eq!((r.peers[0].ip, r.peers[0].port), ([192, 0, 2, 10], 6881));
    assert_eq!((r.peers[1].ip, r.peers[1].port), ([192, 0, 2, 11], 6881));
    assert!(matches!(parse_announce_response(&ann[..30], txn), Err(TrackerError::BadPeers)));
    ann[3] = 0;
    assert!(matches!(parse_announce_response(&ann, txn), Err(TrackerError::Protocol)));
}
