use bittorrent_client::bencode::{encode, Value};
use bittorrent_client::metainfo::{block_plan, Field, MetainfoError, Torrent, TorrentInfo, Hashes, FileInfo, split_hashes};
use bittorrent_client::scheduler::{PeerCursor, PieceStatus, SchedulerError, WorkQueue};
use sha1::{Digest, Sha1};

fn sha1(data: &[u8]) -> [u8; 20] {
    Sha1::digest(data).into()
}

fn entry(k: &str, v: Value) -> (Vec<u8>, Value) {
    (k.as_bytes().to_vec(), v)
}

fn metainfo(announce: &str, name: &str, length: i64, piece_length: i64, pieces: Vec<u8>) -> Vec<u8> {
    let info = Value::Dict(vec![
        entry("length", Value::Int(length)),
        entry("name", Value::Bytes(name.as_bytes().to_vec())),
        entry("piece length", Value::Int(piece_length)),
        entry("pieces", Value::Bytes(pieces)),
    ]);
    encode(&Value::Dict(vec![
        entry("announce", Value::Bytes(announce.as_bytes().to_vec())),
        entry("info", info),
    ]))
}

fn info_for(length: u64, piece_length: u64, payload: &[u8]) -> TorrentInfo {
    let mut pieces = Vec::new();
    for chunk in payload.chunks(piece_length as usize) {
        pieces.extend_from_slice(&sha1(chunk));
    }
    TorrentInfo { name: b"f".to_vec(), piece_length, pieces, length }
}

#[test]
fn hello_world_end_to_end() {
    let content = b"hello world\n";
    let bytes = metainfo("http://tracker.local/announce", "hello.txt", 12, 16384, sha1(content).to_vec());
    let t = Torrent::from_bytes(&bytes).unwrap();
    assert_eq!(t.announce, b"http://tracker.local/announce".to_vec());
    assert_eq!(t.info.name, b"hello.txt".to_vec());
    let mut info_bytes = b"d6:lengthi12e4:name9:hello.txt12:piece lengthi16384e6:pieces20:".to_vec();
    info_bytes.extend_from_slice(&sha1(content));
    info_bytes.push(b'e');
    assert_eq!(t.info_hash, sha1(&info_bytes));
    assert_eq!(t.info.num_pieces(), 1);
    assert_eq!(t.info.piece_size(0), 12);
    assert_eq!(block_plan(12), vec![(0, 12)]);

    let mut q = WorkQueue::new(t.info.clone(), 8);
    assert_eq!(q.claim(0), Some(0));
    assert_eq!(q.complete(0, 0, content.to_vec()), Ok(true));
    assert!(q.is_complete());
    assert_eq!(q.assemble(), content.to_vec());
}

#[test]
fn two_pieces_from_two_workers() {
    let payload: Vec<u8> = (0..32768u32).map(|i| (i % 251) as u8).collect();
    let info = info_for(32768, 16384, &payload);
    let mut q = WorkQueue::new(info, 8);
    let a = q.claim(0).unwrap();
    let b = q.claim(1).unwrap();
    assert_eq!((a, b), (0, 1));
    assert_eq!(q.status[0], PieceStatus::InFlight(0));
    assert_eq!(q.status[1], PieceStatus::InFlight(1));
    assert_eq!(q.claim(2), None);
    assert_eq!(q.complete(1, 1, payload[16384..].to_vec()), Ok(true));
    assert!(!q.is_complete());
    assert_eq!(q.complete(0, 0, payload[..16384].to_vec()), Ok(true));
    let out = q.assemble();
    assert_eq!(out.len(), 32768);
    assert_eq!(out, payload);
    for (i, h) in q.info.piece_hashes().iter().enumerate() {
        assert_eq!(*h, sha1(&out[i * 16384..(i + 1) * 16384]));
    }
}

#[test]
fn bad_piece_is_requeued_then_completed() {
    let payload = vec![3u8; 16384];
    let info = info_for(16384, 16384, &payload);
    let mut q = WorkQueue::new(info, 8);
    assert_eq!(q.claim(0), Some(0));
    assert_eq!(q.complete(0, 0, vec![4u8; 16384]), Ok(false));
    assert_eq!(q.status[0], PieceStatus::Pending);
    assert_eq!(q.attempts[0], 1);
    assert_eq!(q.claim(1), Some(0));
    assert_eq!(q.complete(0, 1, payload.clone()), Ok(true));
    assert_eq!(q.assemble(), payload);
}

#[test]
fn peer_closing_mid_piece_requeues() {
    let payload = vec![9u8; 100];
    let info = info_for(100, 16384, &payload);
    let mut q = WorkQueue::new(info, 3);
    assert_eq!(q.claim(0), Some(0));
    assert_eq!(q.fail(0), Ok(()));
    assert_eq!(q.claim(1), Some(0));
    assert_eq!(q.complete(0, 1, payload.clone()), Ok(true));
    assert_eq!(q.assemble(), payload);
}

#[test]
fn exhausted_piece_surfaces() {
    let payload = vec![1u8; 10];
    let info = info_for(10, 16384, &payload);
    let mut q = WorkQueue::new(info, 2);
    assert_eq!(q.claim(0), Some(0));
    assert_eq!(q.complete(0, 0, vec![0u8; 10]), Ok(false));
    assert_eq!(q.claim(1), Some(0));
    assert_eq!(q.complete(0, 1, vec![0u8; 10]), Err(SchedulerError::PieceExhausted(0)));
    assert_eq!(q.status[0], PieceStatus::Failed(2));
    assert_eq!(q.claim(0), None);
}

#[test]
fn single_piece_equal_to_length() {
    let payload = vec![5u8; 16384];
    let info = info_for(16384, 16384, &payload);
    assert_eq!(info.num_pieces(), 1);
    assert_eq!(info.piece_size(0), 16384);
    assert_eq!(block_plan(16384), vec![(0, 16384)]);
}

#[test]
fn last_piece_shorter() {
    let payload = vec![5u8; 32767];
    let info = info_for(32767, 32768, &payload);
    assert_eq!(info.num_pieces(), 1);
    assert_eq!(info.piece_size(0), 32767);
    assert_eq!(block_plan(32767), vec![(0, 16384), (16384, 16383)]);
    let info = info_for(16383 + 16384, 16384, &vec![5u8; 32767]);
    assert_eq!(info.num_pieces(), 2);
    assert_eq!(info.piece_size(1), 16383);
}

#[test]
fn many_small_pieces() {
    let length = 17 * 16384 + 1;
    let payload: Vec<u8> = (0..length).map(|i| (i % 7) as u8).collect();
    let info = info_for(length as u64, 16384, &payload);
    assert_eq!(info.num_pieces(), 18);
    assert_eq!(info.piece_size(0), 16384);
    assert_eq!(info.piece_size(16), 16384);
    assert_eq!(info.piece_size(17), 1);
    assert_eq!(info.piece_offset(17), 17 * 16384);
    let mut q = WorkQueue::new(info, 8);
    while let Some(i) = q.claim(i_worker()) {
        let start = i * 16384;
        let end = std::cmp::min(start + 16384, payload.len());
        assert_eq!(q.complete(i, 0, payload[start..end].to_vec()), Ok(true));
    }
    assert!(q.is_complete());
    assert_eq!(q.assemble(), payload);
}

fn i_worker() -> usize {
    0
}

#[test]
fn metainfo_rejections() {
    let h = vec![0u8; 20];
    let ok = metainfo("udp://t.example:80", "n", 5, 16384, h.clone());
    assert!(Torrent::from_bytes(&ok).is_ok());
    let bad_url = metainfo("ftp://t.example/", "n", 5, 16384, h.clone());
    assert_eq!(Torrent::from_bytes(&bad_url).unwrap_err(), MetainfoError::InvalidUrl);
    let unparsable = metainfo("http://[::1/announce", "n", 5, 16384, h.clone());
    assert_eq!(Torrent::from_bytes(&unparsable).unwrap_err(), MetainfoError::InvalidUrl);
    let mut not_utf8 = b"http://t/".to_vec();
    not_utf8.push(0xff);
    let info = Value::Dict(vec![
        entry("length", Value::Int(5)),
        entry("name", Value::Bytes(b"n".to_vec())),
        entry("piece length", Value::Int(16384)),
        entry("pieces", Value::Bytes(h.clone())),
    ]);
    let raw = encode(&Value::Dict(vec![entry("announce", Value::Bytes(not_utf8)), entry("info", info)]));
    assert_eq!(Torrent::from_bytes(&raw).unwrap_err(), MetainfoError::InvalidUrl);
    let bad_pieces = metainfo("http://t/", "n", 5, 16384, vec![0u8; 19]);
    assert_eq!(Torrent::from_bytes(&bad_pieces).unwrap_err(), MetainfoError::InvalidPieces);
    let zero_pl = metainfo("http://t/", "n", 5, 0, h.clone());
    assert_eq!(Torrent::from_bytes(&zero_pl).unwrap_err(), MetainfoError::InvalidPieceLength);
    let zero_len = metainfo("http://t/", "n", 0, 16384, h.clone());
    assert_eq!(Torrent::from_bytes(&zero_len).unwrap_err(), MetainfoError::InvalidLength);
    let count = metainfo("http://t/", "n", 40000, 16384, h.clone());
    assert_eq!(Torrent::from_bytes(&count).unwrap_err(), MetainfoError::PieceCountMismatch);
    assert_eq!(Torrent::from_bytes(b"i1e").unwrap_err(), MetainfoError::NotADictionary);
    assert_eq!(Torrent::from_bytes(b"de").unwrap_err(), MetainfoError::MissingField(Field::Announce));
    assert!(matches!(Torrent::from_bytes(b"d"), Err(MetainfoError::Bencode(_))));
}

#[test]
fn hashes_split_into_twenty_byte_runs() {
    let mut raw = vec![1u8; 20];
    raw.extend_from_slice(&[2u8; 20]);
    raw.push(9);
    let hs = Hashes(raw.clone()).to_hash_vec();
    assert_eq!(hs, vec![[1u8; 20], [2u8; 20]]);
    assert_eq!(split_hashes(&raw[..40]).len(), 2);
    let f = FileInfo::new(3, vec!["a".to_string()]);
    assert_eq!(f.length, 3);
}

#[test]
fn peer_cursor_round_robin() {
    let mut c = PeerCursor::new(5, 2);
    assert_eq!(c.current, 1);
    assert!(c.active());
    c.on_failure();
    assert_eq!(c.current, 0);
    c.on_success();
    assert_eq!(c.failures, 0);
    c.on_failure();
    c.on_failure();
    assert_eq!(c.current, 0);
    assert!(!c.active());
}
