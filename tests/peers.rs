use bittorrent_client::handshake::{check_reply, Handshake, HandshakeError, Piece};
use bittorrent_client::peer_id::generate_peer_id;
use bittorrent_client::session::{has_piece, Session, SessionError, SessionState, Step};
use bittorrent_client::wire::Message;

const PROTOCOL: &[u8] = b"BitTorrent protocol";

#[test]
fn handshake_round_trip_with_other_peer_id() {
    let hash = [7u8; 20];
    let ours = [1u8; 20];
    let bytes = Handshake::new(hash, ours).to_bytes();
    assert_eq!(bytes.len(), 68);
    assert_eq!(bytes[0], 19);
    assert_eq!(&bytes[1..20], PROTOCOL);
    assert_eq!(&bytes[20..28], &[0u8; 8]);
    assert_eq!(&bytes[28..48], &hash);
    assert_eq!(&bytes[48..68], &ours);

    let theirs = [2u8; 20];
    let reply = Handshake::new(hash, theirs).as_bytes();
    assert_eq!(check_reply(&reply, &hash), Ok(theirs));
}

#[test]
fn handshake_rejections() {
    let hash = [7u8; 20];
    let reply = Handshake::new([8u8; 20], [2u8; 20]).to_bytes();
    assert_eq!(check_reply(&reply, &hash), Err(HandshakeError::InfoHashMismatch));
    assert_eq!(check_reply(&reply[..67], &hash), Err(HandshakeError::InvalidLength));
    let mut bad = Handshake::new(hash, [2u8; 20]).to_bytes();
    bad[3] = b'X';
    assert_eq!(check_reply(&bad, &hash), Err(HandshakeError::InvalidProtocol));
    let h = Handshake::from_bytes(&Handshake::new(hash, [3u8; 20]).to_bytes()).unwrap();
    assert_eq!(h.peer_id, [3u8; 20]);
}

#[test]
fn piece_body_parsing() {
    let p = Piece::from_bytes(&[0, 0, 0, 2, 0, 0, 0x40, 0, 9, 8]).unwrap();
    assert_eq!(p.index(), 2);
    assert_eq!(p.begin(), 16384);
    assert_eq!(p.block(), &[9, 8]);
    assert!(Piece::from_bytes(&[0, 0, 0]).is_none());
}

#[test]
fn peer_id_has_prefix_and_alphanumerics() {
    let id = generate_peer_id();
    assert_eq!(&id[..8], b"-CRAB01-");
    assert!(id[8..].iter().all(|b| b.is_ascii_alphanumeric()));
}

fn unchoked_session(hash: [u8; 20]) -> Session {
    let mut s = Session::new(hash, [1u8; 20]);
    let hs = s.on_connected();
    assert_eq!(hs.len(), 68);
    s.on_handshake(&Handshake::new(hash, [2u8; 20]).to_bytes()).unwrap();
    assert!(matches!(s.on_message(Message::Bitfield(vec![0xff])), Ok(Step::Send(Message::Interested))));
    assert!(matches!(s.on_message(Message::Have(0)), Ok(Step::Wait)));
    assert!(matches!(s.on_message(Message::Unchoke), Ok(Step::Ready)));
    s
}

#[test]
fn session_rejects_have_before_bitfield() {
    let hash = [5u8; 20];
    let mut s = Session::new(hash, [1u8; 20]);
    s.on_connected();
    s.on_handshake(&Handshake::new(hash, [2u8; 20]).to_bytes()).unwrap();
    assert_eq!(s.on_message(Message::Have(0)).unwrap_err(), SessionError::UnexpectedMessage);
    assert_eq!(s.state, SessionState::Closed);
}

#[test]
fn session_fetches_piece_block_by_block() {
    let hash = [5u8; 20];
    let mut s = unchoked_session(hash);
    let size = 16384 + 100;
    let first = s.request_piece(0, size);
    assert!(matches!(first, Message::Request { index: 0, begin: 0, length: 16384 }));
    let step = s.on_message(Message::Piece { index: 0, begin: 0, block: vec![1; 16384] }).unwrap();
    match step {
        Step::Send(Message::Request { index: 0, begin: 16384, length: 100 }) => {}
        other => panic!("unexpected step {:?}", other),
    }
    let step = s.on_message(Message::Piece { index: 0, begin: 16384, block: vec![2; 100] }).unwrap();
    match step {
        Step::PieceDone(data) => {
            assert_eq!(data.len(), 16484);
            assert_eq!(data[16383], 1);
            assert_eq!(data[16384], 2);
        }
        other => panic!("unexpected step {:?}", other),
    }
    assert_eq!(s.state, SessionState::Unchoked);
}

#[test]
fn session_idle_tolerates_messages_and_choke() {
    let mut s = unchoked_session([5u8; 20]);
    assert!(matches!(s.on_message(Message::Have(3)), Ok(Step::Wait)));
    assert_eq!(s.state, SessionState::Unchoked);
    assert!(matches!(s.on_message(Message::Choke), Ok(Step::Wait)));
    assert_eq!(s.state, SessionState::Interested);
    assert!(matches!(s.on_message(Message::Unchoke), Ok(Step::Ready)));
}

#[test]
fn session_closes_on_mismatched_block() {
    let mut s = unchoked_session([5u8; 20]);
    s.request_piece(3, 10);
    let r = s.on_message(Message::Piece { index: 3, begin: 16384, block: vec![0; 10] });
    assert_eq!(r.unwrap_err(), SessionError::BlockMismatch);
    assert_eq!(s.state, SessionState::Closed);
}

#[test]
fn session_rejects_piece_before_unchoke() {
    let hash = [5u8; 20];
    let mut s = Session::new(hash, [1u8; 20]);
    s.on_connected();
    s.on_handshake(&Handshake::new(hash, [2u8; 20]).to_bytes()).unwrap();
    s.on_message(Message::Bitfield(vec![])).unwrap();
    let r = s.on_message(Message::Piece { index: 0, begin: 0, block: vec![] });
    assert_eq!(r.unwrap_err(), SessionError::UnexpectedMessage);
}

#[test]
fn bitfield_is_msb_first() {
    let bits = [0b1000_0001u8, 0b0100_0000];
    assert!(has_piece(&bits, 0));
    assert!(!has_piece(&bits, 1));
    assert!(has_piece(&bits, 7));
    assert!(has_piece(&bits, 9));
    assert!(!has_piece(&bits, 8));
    assert!(!has_piece(&bits, 16));
    let mut s = unchoked_session([5u8; 20]);
    assert!(s.peer_has(3));
    s.bitfield = vec![0];
    assert!(!s.peer_has(3));
}
