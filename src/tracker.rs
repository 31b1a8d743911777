use vstd::prelude::*;
use crate::bencode::{decode, enc, nat_dec, wf_value, write_nat, BValue, BencodeError, Value};
use crate::endian::{
    be16, be32, be64, get_be16, get_be32, get_be64, push_all, push_be16, push_be32, push_be64,
    read_be16, read_be32, read_be64,
};
use crate::metainfo::{
    dict_get, failure_reason_key, get_bytes, get_int, interval_key, key_failure_reason,
    key_interval, key_peers, peers_key, Torrent,
};

verus! {

/// Port announced to the tracker.
pub const LISTEN_PORT: u16 = 6881;

/// Magic connection id of a UDP tracker connect request.
pub const UDP_PROTOCOL_ID: u64 = 0x41727101980;

/// An IPv4 peer address.
#[derive(Clone, Copy, Debug)]
pub struct Peer {
    pub ip: [u8; 4],
    pub port: u16,
}

impl Peer {
    pub fn new(ip: [u8; 4], port: u16) -> (r: Peer)
        ensures
            r.ip == ip,
            r.port == port,
    {
        Peer { ip, port }
    }

    /// The 6-byte compact form: four address octets, then the port big-endian.
    pub open spec fn spec_compact(&self) -> Seq<u8> {
        self.ip@ + be16(self.port)
    }
}

/// The peer described by the 6-byte record at `s[6 * i..6 * i + 6]`.
pub open spec fn record_matches(p: Peer, s: Seq<u8>, i: int) -> bool {
    p.ip@ == s.subrange(6 * i, 6 * i + 4) && p.port == read_be16(s, 6 * i + 4)
}

/// Reads a compact peer list: concatenated 6-byte records.
pub fn parse_compact_peers(s: &[u8]) -> (r: Option<Vec<Peer>>)
    ensures
        r is Some <==> s@.len() % 6 == 0,
        r matches Some(v) ==> v@.len() == s@.len() / 6 && forall|i: int|
            0 <= i < v@.len() ==> record_matches(#[trigger] v@[i], s@, i),
{
    let total = s.len();
    if total % 6 != 0 {
        return None;
    }
    let n = total / 6;
    let mut v: Vec<Peer> = Vec::new();
    let mut i: usize = 0;
    while i < n
        invariant
            i <= n,
            n == s@.len() / 6,
            total == s@.len(),
            v@.len() == i,
            forall|k: int| 0 <= k < i ==> record_matches(#[trigger] v@[k], s@, k),
        decreases n - i,
    {
        let b = 6 * i;
        let ip: [u8; 4] = [s[b], s[b + 1], s[b + 2], s[b + 3]];
        let port = get_be16(s, b + 4);
        assert(ip@ =~= s@.subrange(6 * i, 6 * i + 4));
        v.push(Peer { ip, port });
        i = i + 1;
    }
    Some(v)
}

/// Appends the compact record of each peer.
pub fn compact_peers(peers: &[Peer]) -> (r: Vec<u8>)
    ensures
        r@.len() == 6 * peers@.len(),
        forall|i: int| 0 <= i < peers@.len() ==> r@.subrange(6 * i, 6 * i + 6) == (
        #[trigger] peers@[i]).spec_compact(),
{
    let mut r: Vec<u8> = Vec::new();
    let mut i: usize = 0;
    while i < peers.len()
        invariant
            i <= peers@.len(),
            r@.len() == 6 * i,
            forall|k: int| 0 <= k < i ==> r@.subrange(6 * k, 6 * k + 6) == (
            #[trigger] peers@[k]).spec_compact(),
        decreases peers@.len() - i,
    {
        let ghost before = r@;
        let p = peers[i];
        push_all(&mut r, &p.ip);
        push_be16(&mut r, p.port);
        assert forall|k: int| 0 <= k < i + 1 implies r@.subrange(6 * k, 6 * k + 6) == (
        #[trigger] peers@[k]).spec_compact() by {
            if k < i {
                assert(r@.subrange(6 * k, 6 * k + 6) =~= before.subrange(6 * k, 6 * k + 6));
            } else {
                assert(r@.subrange(6 * k, 6 * k + 6) =~= p.ip@ + be16(p.port));
            }
        }
        i = i + 1;
    }
    r
}

/// Compact peer records read back as the peers they were written from.
pub proof fn lemma_compact_round_trip(p: Peer, s: Seq<u8>, i: int)
    requires
        0 <= i,
        6 * i + 6 <= s.len(),
        s.subrange(6 * i, 6 * i + 6) == p.spec_compact(),
    ensures
        record_matches(p, s, i),
{
    assert(s.subrange(6 * i, 6 * i + 4) =~= s.subrange(6 * i, 6 * i + 6).subrange(0, 4));
    assert(p.spec_compact().subrange(0, 4) =~= p.ip@);
    assert(p.spec_compact().subrange(4, 6) =~= be16(p.port));
    assert(s.subrange(6 * i + 4, 6 * i + 6) =~= s.subrange(6 * i, 6 * i + 6).subrange(4, 6));
    crate::endian::lemma_be16_at(s, 6 * i + 4, p.port);
}

/// Upper-case hexadecimal digit of `d < 16`.
pub open spec fn hex_digit(d: u8) -> u8 {
    if d < 10 {
        (48 + d) as u8
    } else {
        (55 + d) as u8
    }
}

/// Each byte written as `%XX`, upper-case hexadecimal.
pub open spec fn percent_bytes(s: Seq<u8>) -> Seq<u8>
    decreases s.len(),
{
    if s.len() == 0 {
        seq![]
    } else {
        percent_bytes(s.subrange(0, s.len() - 1)) + seq![
            37u8,
            hex_digit(s[s.len() - 1] / 16),
            hex_digit(s[s.len() - 1] % 16),
        ]
    }
}

/// Appends `%XX` for each byte of `s`.
fn push_percent(out: &mut Vec<u8>, s: &[u8])
    ensures
        final(out)@ == old(out)@ + percent_bytes(s@),
{
    let mut i: usize = 0;
    while i < s.len()
        invariant
            i <= s@.len(),
            out@ == old(out)@ + percent_bytes(s@.subrange(0, i as int)),
        decreases s@.len() - i,
    {
        let b = s[i];
        let hi = b / 16;
        let lo = b % 16;
        out.push(37);
        out.push(if hi < 10 { 48 + hi } else { 55 + hi });
        out.push(if lo < 10 { 48 + lo } else { 55 + lo });
        proof {
            let t = s@.subrange(0, i + 1);
            assert(t.subrange(0, t.len() - 1) =~= s@.subrange(0, i as int));
        }
        i = i + 1;
        assert(out@ =~= old(out)@ + percent_bytes(s@.subrange(0, i as int)));
    }
    assert(s@.subrange(0, i as int) =~= s@);
}

/// The characters of an ASCII byte sequence.
pub open spec fn ascii_chars(s: Seq<u8>) -> Seq<char> {
    s.map_values(|b: u8| b as char)
}

/// Relies on `String::from_utf8`: ASCII bytes are valid UTF-8 and give one character each.
#[verifier::external_body]
fn ascii_string(b: Vec<u8>) -> (r: String)
    requires
        forall|i: int| 0 <= i < b@.len() ==> #[trigger] b@[i] < 128,
    ensures
        r@ == ascii_chars(b@),
{
    match String::from_utf8(b) {
        Ok(s) => s,
        Err(_) => String::new(),
    }
}

proof fn lemma_percent_ascii(s: Seq<u8>)
    ensures
        forall|i: int| 0 <= i < percent_bytes(s).len() ==> #[trigger] percent_bytes(s)[i] < 128,
        percent_bytes(s).len() == 3 * s.len(),
    decreases s.len(),
{
    if s.len() > 0 {
        lemma_percent_ascii(s.subrange(0, s.len() - 1));
    }
}

/// Percent-encodes every byte as `%XX`.
pub fn urlencode(t: &[u8]) -> (r: String)
    ensures
        r@ == ascii_chars(percent_bytes(t@)),
{
    let mut out: Vec<u8> = Vec::new();
    push_percent(&mut out, t);
    proof {
        assert(out@ =~= percent_bytes(t@));
        lemma_percent_ascii(t@);
    }
    ascii_string(out)
}

pub open spec fn param_info_hash() -> Seq<u8> {
    seq![63u8, 105u8, 110u8, 102u8, 111u8, 95u8, 104u8, 97u8, 115u8, 104u8, 61u8]
}

pub open spec fn param_peer_id() -> Seq<u8> {
    seq![38u8, 112u8, 101u8, 101u8, 114u8, 95u8, 105u8, 100u8, 61u8]
}

pub open spec fn param_port() -> Seq<u8> {
    seq![38u8, 112u8, 111u8, 114u8, 116u8, 61u8]
}

pub open spec fn param_uploaded() -> Seq<u8> {
    seq![38u8, 117u8, 112u8, 108u8, 111u8, 97u8, 100u8, 101u8, 100u8, 61u8]
}

pub open spec fn param_downloaded() -> Seq<u8> {
    seq![38u8, 100u8, 111u8, 119u8, 110u8, 108u8, 111u8, 97u8, 100u8, 101u8, 100u8, 61u8]
}

pub open spec fn param_left() -> Seq<u8> {
    seq![38u8, 108u8, 101u8, 102u8, 116u8, 61u8]
}

pub open spec fn param_compact() -> Seq<u8> {
    seq![38u8, 99u8, 111u8, 109u8, 112u8, 97u8, 99u8, 116u8, 61u8]
}

/// The announce URL: `<announce>?info_hash=..&peer_id=..&port=..&uploaded=..&downloaded=..&left=..&compact=..`.
pub open spec fn announce_url(
    announce: Seq<u8>,
    info_hash: Seq<u8>,
    peer_id: Seq<u8>,
    port: nat,
    uploaded: nat,
    downloaded: nat,
    left: nat,
    compact: nat,
) -> Seq<u8> {
    announce + param_info_hash() + percent_bytes(info_hash) + param_peer_id() + percent_bytes(
        peer_id,
    ) + param_port() + nat_dec(port) + param_uploaded() + nat_dec(uploaded) + param_downloaded()
        + nat_dec(downloaded) + param_left() + nat_dec(left) + param_compact() + nat_dec(compact)
}

/// The parameters of an announce to the tracker.
#[derive(Clone, Debug)]
pub struct TrackerRequest {
    pub tracker_url: Vec<u8>,
    pub info_hash: [u8; 20],
    pub peer_id: [u8; 20],
    pub port: u16,
    pub uploaded: u64,
    pub downloaded: u64,
    pub left: u64,
    pub compact: u8,
}

impl TrackerRequest {
    /// The first announce of a download: nothing sent or received yet, everything left.
    pub fn new(torrent: &Torrent, peer_id: [u8; 20]) -> (r: TrackerRequest)
        ensures
            r.tracker_url@ == torrent.announce@,
            r.info_hash == torrent.info_hash,
            r.peer_id == peer_id,
            r.port == LISTEN_PORT,
            r.uploaded == 0,
            r.downloaded == 0,
            r.left == torrent.info.length,
            r.compact == 1,
    {
        TrackerRequest {
            tracker_url: torrent.announce.clone(),
            info_hash: torrent.info_hash,
            peer_id,
            port: LISTEN_PORT,
            uploaded: 0,
            downloaded: 0,
            left: torrent.info.length,
            compact: 1,
        }
    }

    /// The HTTP announce URL, as bytes.
    pub fn build_url(&self) -> (r: Vec<u8>)
        ensures
            r@ == announce_url(
                self.tracker_url@,
                self.info_hash@,
                self.peer_id@,
                self.port as nat,
                self.uploaded as nat,
                self.downloaded as nat,
                self.left as nat,
                self.compact as nat,
            ),
    {
        let mut out: Vec<u8> = Vec::new();
        push_all(&mut out, self.tracker_url.as_slice());
        let p = vec![63u8, 105u8, 110u8, 102u8, 111u8, 95u8, 104u8, 97u8, 115u8, 104u8, 61u8];
        assert(p@ =~= param_info_hash());
        push_all(&mut out, p.as_slice());
        push_percent(&mut out, &self.info_hash);
        let p = vec![38u8, 112u8, 101u8, 101u8, 114u8, 95u8, 105u8, 100u8, 61u8];
        assert(p@ =~= param_peer_id());
        push_all(&mut out, p.as_slice());
        push_percent(&mut out, &self.peer_id);
        let p = vec![38u8, 112u8, 111u8, 114u8, 116u8, 61u8];
        assert(p@ =~= param_port());
        push_all(&mut out, p.as_slice());
        write_nat(self.port as u64, &mut out);
        let p = vec![38u8, 117u8, 112u8, 108u8, 111u8, 97u8, 100u8, 101u8, 100u8, 61u8];
        assert(p@ =~= param_uploaded());
        push_all(&mut out, p.as_slice());
        write_nat(self.uploaded, &mut out);
        let p = vec![38u8, 100u8, 111u8, 119u8, 110u8, 108u8, 111u8, 97u8, 100u8, 101u8, 100u8, 61u8];
        assert(p@ =~= param_downloaded());
        push_all(&mut out, p.as_slice());
        write_nat(self.downloaded, &mut out);
        let p = vec![38u8, 108u8, 101u8, 102u8, 116u8, 61u8];
        assert(p@ =~= param_left());
        push_all(&mut out, p.as_slice());
        write_nat(self.left, &mut out);
        let p = vec![38u8, 99u8, 111u8, 109u8, 112u8, 97u8, 99u8, 116u8, 61u8];
        assert(p@ =~= param_compact());
        push_all(&mut out, p.as_slice());
        write_nat(self.compact as u64, &mut out);
        assert(out@ =~= announce_url(
            self.tracker_url@,
            self.info_hash@,
            self.peer_id@,
            self.port as nat,
            self.uploaded as nat,
            self.downloaded as nat,
            self.left as nat,
            self.compact as nat,
        ));
        out
    }
}

/// What a tracker answered: the re-announce interval and the peers.
#[derive(Clone, Debug)]
pub struct TrackerResponse {
    pub interval: u32,
    pub peers: Vec<Peer>,
}

impl TrackerResponse {
    pub fn new(interval: u32, peers: Vec<Peer>) -> (r: TrackerResponse)
        ensures
            r.interval == interval,
            r.peers == peers,
    {
        TrackerResponse { interval, peers }
    }
}

/// Why a tracker exchange failed.
#[derive(Clone, Debug)]
pub enum TrackerError {
    /// The HTTP body is not bencoded.
    Bencode(BencodeError),
    /// The HTTP body is not a dictionary.
    NotADictionary,
    /// The tracker refused the announce, with this reason.
    Rejected(Vec<u8>),
    /// `interval` is absent or not an integer in 0..2^32.
    MissingInterval,
    /// `peers` is absent or not a byte string.
    MissingPeers,
    /// The peer list is not made of 6-byte records.
    BadPeers,
    /// A UDP reply is too short, or its action or transaction id is not the expected one.
    Protocol,
    /// The tracker did not answer in time.
    Timeout,
}

/// The peer list that a tracker's peer bytes `s` describe, record by record.
pub open spec fn peers_match(v: Seq<Peer>, s: Seq<u8>) -> bool {
    &&& v.len() == s.len() / 6
    &&& forall|i: int| 0 <= i < v.len() ==> record_matches(#[trigger] v[i], s, i)
}

/// A tracker answer that yields a peer list: a dictionary with no `failure reason`, an
/// `interval` in `0..2^32` and a `peers` string of 6-byte records.
pub open spec fn tracker_accepts(top: BValue) -> bool {
    &&& top is Dict
    &&& get_bytes(top->Dict_0, key_failure_reason()) is None
    &&& get_int(top->Dict_0, key_interval()) is Some
    &&& 0 <= get_int(top->Dict_0, key_interval())->0 <= u32::MAX
    &&& get_bytes(top->Dict_0, key_peers()) is Some
    &&& get_bytes(top->Dict_0, key_peers())->0.len() % 6 == 0
}

/// Reads the dictionary that an HTTP tracker answered with.
pub fn parse_tracker_value(top: &Value) -> (r: Result<TrackerResponse, TrackerError>)
    ensures
        !(top@ is Dict) ==> r matches Err(TrackerError::NotADictionary),
        top@ matches BValue::Dict(es) ==> {
            if get_bytes(es, key_failure_reason()) is Some {
                r matches Err(TrackerError::Rejected(m)) && m@ == get_bytes(
                    es,
                    key_failure_reason(),
                )->0
            } else if get_int(es, key_interval()) is None || get_int(es, key_interval())->0 < 0
                || get_int(es, key_interval())->0 > u32::MAX {
                r matches Err(TrackerError::MissingInterval)
            } else if get_bytes(es, key_peers()) is None {
                r matches Err(TrackerError::MissingPeers)
            } else if get_bytes(es, key_peers())->0.len() % 6 != 0 {
                r matches Err(TrackerError::BadPeers)
            } else {
                r matches Ok(resp) && resp.interval == get_int(es, key_interval())->0
                    && peers_match(resp.peers@, get_bytes(es, key_peers())->0)
            }
        },
{
    let es = match top {
        Value::Dict(es) => es,
        _ => {
            return Err(TrackerError::NotADictionary);
        },
    };
    if let Some(Value::Bytes(reason)) = dict_get(es, failure_reason_key().as_slice()) {
        return Err(TrackerError::Rejected(reason.clone()));
    }
    let interval: u32 = match dict_get(es, interval_key().as_slice()) {
        Some(Value::Int(n)) => {
            if *n < 0 || *n > 0xffff_ffff {
                return Err(TrackerError::MissingInterval);
            }
            *n as u32
        },
        _ => {
            return Err(TrackerError::MissingInterval);
        },
    };
    let peer_bytes = match dict_get(es, peers_key().as_slice()) {
        Some(Value::Bytes(b)) => b,
        _ => {
            return Err(TrackerError::MissingPeers);
        },
    };
    match parse_compact_peers(peer_bytes.as_slice()) {
        Some(peers) => Ok(TrackerResponse { interval, peers }),
        None => Err(TrackerError::BadPeers),
    }
}

/// Reads the bencoded body of an HTTP tracker's answer.
pub fn parse_tracker_response(body: &[u8]) -> (r: Result<TrackerResponse, TrackerError>)
    ensures
        (forall|top: BValue| wf_value(top) ==> enc(top) != body@) ==> r matches Err(
            TrackerError::Bencode(_),
        ),
        forall|top: BValue|
            wf_value(top) && #[trigger] enc(top) == body@ ==> (r is Ok <==> tracker_accepts(top)),
        r matches Ok(resp) ==> exists|es: Seq<(Seq<u8>, BValue)>|
            {
                &&& #[trigger] crate::bencode::enc(BValue::Dict(es)) == body@
                &&& get_bytes(es, key_failure_reason()) is None
                &&& resp.interval == get_int(es, key_interval())->0
                &&& peers_match(resp.peers@, get_bytes(es, key_peers())->0)
            },
        r matches Err(TrackerError::Rejected(m)) ==> exists|es: Seq<(Seq<u8>, BValue)>|
            {
                &&& #[trigger] crate::bencode::enc(BValue::Dict(es)) == body@
                &&& get_bytes(es, key_failure_reason()) == Some(m@)
            },
{
    let top = match decode(body) {
        Ok(v) => v,
        Err(e) => {
            return Err(TrackerError::Bencode(e));
        },
    };
    let r = parse_tracker_value(&top);
    proof {
        crate::bencode::lemma_value_wf(top);
        if top@ is Dict {
            assert(crate::bencode::enc(BValue::Dict(top@->Dict_0)) == body@);
        }
    }
    r
}

/// The UDP connect request: protocol id, action 0 (connect), transaction id.
pub open spec fn connect_request_bytes(txn: u32) -> Seq<u8> {
    be64(UDP_PROTOCOL_ID) + be32(0) + be32(txn)
}

pub fn connect_request(transaction_id: u32) -> (r: Vec<u8>)
    ensures
        r@ == connect_request_bytes(transaction_id),
{
    let mut out: Vec<u8> = Vec::new();
    push_be64(&mut out, UDP_PROTOCOL_ID);
    push_be32(&mut out, 0);
    push_be32(&mut out, transaction_id);
    assert(out@ =~= connect_request_bytes(transaction_id));
    out
}

/// Reads a UDP connect response: action 0 and our transaction id, then the connection id.
pub fn parse_connect_response(buf: &[u8], transaction_id: u32) -> (r: Result<u64, TrackerError>)
    ensures
        r is Ok <==> (buf@.len() >= 16 && read_be32(buf@, 0) == 0 && read_be32(buf@, 4)
            == transaction_id),
        r matches Ok(id) ==> id == read_be64(buf@, 8),
        r is Err ==> r matches Err(TrackerError::Protocol),
{
    if buf.len() < 16 {
        return Err(TrackerError::Protocol);
    }
    if get_be32(buf, 0) != 0 || get_be32(buf, 4) != transaction_id {
        return Err(TrackerError::Protocol);
    }
    Ok(get_be64(buf, 8))
}

/// Event code sent with the first UDP announce (`started`).
pub const EVENT_STARTED: u32 = 2;

/// The UDP announce request.
pub open spec fn announce_request_bytes(conn: u64, txn: u32, req: TrackerRequest) -> Seq<u8> {
    be64(conn) + be32(1) + be32(txn) + req.info_hash@ + req.peer_id@ + be64(req.downloaded) + be64(
        req.left,
    ) + be64(req.uploaded) + be32(EVENT_STARTED) + be32(0) + be32(0) + be32(u32::MAX) + be16(
        req.port,
    )
}

pub fn announce_request(connection_id: u64, transaction_id: u32, req: &TrackerRequest) -> (r: Vec<
    u8,
>)
    ensures
        r@ == announce_request_bytes(connection_id, transaction_id, *req),
        r@.len() == 98,
{
    let mut out: Vec<u8> = Vec::new();
    push_be64(&mut out, connection_id);
    push_be32(&mut out, 1);
    push_be32(&mut out, transaction_id);
    push_all(&mut out, &req.info_hash);
    push_all(&mut out, &req.peer_id);
    push_be64(&mut out, req.downloaded);
    push_be64(&mut out, req.left);
    push_be64(&mut out, req.uploaded);
    push_be32(&mut out, EVENT_STARTED);
    push_be32(&mut out, 0);
    push_be32(&mut out, 0);
    push_be32(&mut out, 0xffff_ffff);
    push_be16(&mut out, req.port);
    assert(out@ =~= announce_request_bytes(connection_id, transaction_id, *req));
    out
}

/// Reads a UDP announce response: action 1 and our transaction id, interval, leechers, seeders,
/// then 6-byte peer records.
pub fn parse_announce_response(buf: &[u8], transaction_id: u32) -> (r: Result<
    TrackerResponse,
    TrackerError,
>)
    ensures
        !(buf@.len() >= 20 && read_be32(buf@, 0) == 1 && read_be32(buf@, 4) == transaction_id)
            ==> r matches Err(TrackerError::Protocol),
        (buf@.len() >= 20 && read_be32(buf@, 0) == 1 && read_be32(buf@, 4) == transaction_id) ==> {
            let rest = buf@.subrange(20, buf@.len() as int);
            if rest.len() % 6 != 0 {
                r matches Err(TrackerError::BadPeers)
            } else {
                r matches Ok(resp) && resp.interval == read_be32(buf@, 8) && peers_match(
                    resp.peers@,
                    rest,
                )
            }
        },
{
    if buf.len() < 20 {
        return Err(TrackerError::Protocol);
    }
    if get_be32(buf, 0) != 1 || get_be32(buf, 4) != transaction_id {
        return Err(TrackerError::Protocol);
    }
    let interval = get_be32(buf, 8);
    let rest = crate::endian::copy_range(buf, 20, buf.len());
    match parse_compact_peers(rest.as_slice()) {
        Some(peers) => Ok(TrackerResponse { interval, peers }),
        None => Err(TrackerError::BadPeers),
    }
}

} // verus!
