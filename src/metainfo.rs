use vstd::prelude::*;
use crate::bencode::{
    at, decode, enc, enc_bytes, enc_dict, encode, lemma_enc_dict_front, wf_value, BValue,
    BencodeError, Value,
};
use crate::digest::{sha1_digest, sha1_of};

verus! {

/// The key `announce`.
pub open spec fn key_announce() -> Seq<u8> {
    seq![97u8, 110u8, 110u8, 111u8, 117u8, 110u8, 99u8, 101u8]
}

pub fn announce_key() -> (r: Vec<u8>)
    ensures
        r@ == key_announce(),
{
    let r = vec![97u8, 110u8, 110u8, 111u8, 117u8, 110u8, 99u8, 101u8];
    assert(r@ =~= key_announce());
    r
}

/// The key `info`.
pub open spec fn key_info() -> Seq<u8> {
    seq![105u8, 110u8, 102u8, 111u8]
}

pub fn info_key() -> (r: Vec<u8>)
    ensures
        r@ == key_info(),
{
    let r = vec![105u8, 110u8, 102u8, 111u8];
    assert(r@ =~= key_info());
    r
}

/// The key `name`.
pub open spec fn key_name() -> Seq<u8> {
    seq![110u8, 97u8, 109u8, 101u8]
}

pub fn name_key() -> (r: Vec<u8>)
    ensures
        r@ == key_name(),
{
    let r = vec![110u8, 97u8, 109u8, 101u8];
    assert(r@ =~= key_name());
    r
}

/// The key `piece length`.
pub open spec fn key_piece_length() -> Seq<u8> {
    seq![112u8, 105u8, 101u8, 99u8, 101u8, 32u8, 108u8, 101u8, 110u8, 103u8, 116u8, 104u8]
}

pub fn piece_length_key() -> (r: Vec<u8>)
    ensures
        r@ == key_piece_length(),
{
    let r = vec![112u8, 105u8, 101u8, 99u8, 101u8, 32u8, 108u8, 101u8, 110u8, 103u8, 116u8, 104u8];
    assert(r@ =~= key_piece_length());
    r
}

/// The key `pieces`.
pub open spec fn key_pieces() -> Seq<u8> {
    seq![112u8, 105u8, 101u8, 99u8, 101u8, 115u8]
}

pub fn pieces_key() -> (r: Vec<u8>)
    ensures
        r@ == key_pieces(),
{
    let r = vec![112u8, 105u8, 101u8, 99u8, 101u8, 115u8];
    assert(r@ =~= key_pieces());
    r
}

/// The key `length`.
pub open spec fn key_length() -> Seq<u8> {
    seq![108u8, 101u8, 110u8, 103u8, 116u8, 104u8]
}

pub fn length_key() -> (r: Vec<u8>)
    ensures
        r@ == key_length(),
{
    let r = vec![108u8, 101u8, 110u8, 103u8, 116u8, 104u8];
    assert(r@ =~= key_length());
    r
}

/// The key `failure reason`.
pub open spec fn key_failure_reason() -> Seq<u8> {
    seq![102u8, 97u8, 105u8, 108u8, 117u8, 114u8, 101u8, 32u8, 114u8, 101u8, 97u8, 115u8, 111u8, 110u8]
}

pub fn failure_reason_key() -> (r: Vec<u8>)
    ensures
        r@ == key_failure_reason(),
{
    let r = vec![102u8, 97u8, 105u8, 108u8, 117u8, 114u8, 101u8, 32u8, 114u8, 101u8, 97u8, 115u8, 111u8, 110u8];
    assert(r@ =~= key_failure_reason());
    r
}

/// The key `interval`.
pub open spec fn key_interval() -> Seq<u8> {
    seq![105u8, 110u8, 116u8, 101u8, 114u8, 118u8, 97u8, 108u8]
}

pub fn interval_key() -> (r: Vec<u8>)
    ensures
        r@ == key_interval(),
{
    let r = vec![105u8, 110u8, 116u8, 101u8, 114u8, 118u8, 97u8, 108u8];
    assert(r@ =~= key_interval());
    r
}

/// The key `peers`.
pub open spec fn key_peers() -> Seq<u8> {
    seq![112u8, 101u8, 101u8, 114u8, 115u8]
}

pub fn peers_key() -> (r: Vec<u8>)
    ensures
        r@ == key_peers(),
{
    let r = vec![112u8, 101u8, 101u8, 114u8, 115u8];
    assert(r@ =~= key_peers());
    r
}

/// The value of the first entry with key `k`.
pub open spec fn lookup(es: Seq<(Seq<u8>, BValue)>, k: Seq<u8>) -> Option<BValue>
    decreases es.len(),
{
    if es.len() == 0 {
        None
    } else if es[0].0 == k {
        Some(es[0].1)
    } else {
        lookup(es.subrange(1, es.len() as int), k)
    }
}

pub open spec fn get_bytes(es: Seq<(Seq<u8>, BValue)>, k: Seq<u8>) -> Option<Seq<u8>> {
    match lookup(es, k) {
        Some(BValue::Bytes(b)) => Some(b),
        _ => None,
    }
}

pub open spec fn get_int(es: Seq<(Seq<u8>, BValue)>, k: Seq<u8>) -> Option<int> {
    match lookup(es, k) {
        Some(BValue::Int(n)) => Some(n),
        _ => None,
    }
}

pub open spec fn get_dict(es: Seq<(Seq<u8>, BValue)>, k: Seq<u8>) -> Option<
    Seq<(Seq<u8>, BValue)>,
> {
    match lookup(es, k) {
        Some(BValue::Dict(d)) => Some(d),
        _ => None,
    }
}

proof fn lemma_view_dict_len(s: Seq<(Vec<u8>, Value)>)
    ensures
        crate::bencode::view_dict(s).len() == s.len(),
    decreases s.len(),
{
    if s.len() > 0 {
        lemma_view_dict_len(s.subrange(0, s.len() - 1));
    }
}

proof fn lemma_view_dict_index(s: Seq<(Vec<u8>, Value)>, i: int)
    requires
        0 <= i < s.len(),
    ensures
        crate::bencode::view_dict(s).len() == s.len(),
        crate::bencode::view_dict(s)[i] == (s[i].0@, s[i].1@),
    decreases s.len(),
{
    let p = s.subrange(0, s.len() - 1);
    lemma_view_dict_len(s);
    lemma_view_dict_len(p);
    if i < s.len() - 1 {
        lemma_view_dict_index(p, i);
        assert(p[i] == s[i]);
    }
}

proof fn lemma_lookup_skip(es: Seq<(Seq<u8>, BValue)>, k: Seq<u8>, i: int)
    requires
        0 <= i <= es.len(),
        forall|j: int| 0 <= j < i ==> (#[trigger] es[j]).0 != k,
    ensures
        lookup(es, k) == lookup(es.subrange(i, es.len() as int), k),
    decreases i,
{
    if i == 0 {
        assert(es.subrange(0, es.len() as int) =~= es);
    } else {
        let t = es.subrange(1, es.len() as int);
        assert forall|j: int| 0 <= j < i - 1 implies (#[trigger] t[j]).0 != k by {
            assert(t[j] == es[j + 1]);
        }
        lemma_lookup_skip(t, k, i - 1);
        assert(t.subrange(i - 1, t.len() as int) =~= es.subrange(i, es.len() as int));
    }
}

/// A value found in a dictionary by its key is encoded, byte for byte, inside the dictionary's
/// encoding.
pub proof fn lemma_lookup_in_encoding(es: Seq<(Seq<u8>, BValue)>, k: Seq<u8>)
    requires
        lookup(es, k) is Some,
    ensures
        exists|i: int| at(enc_dict(es), i, enc(lookup(es, k)->0)),
    decreases es.len(),
{
    assert(es.len() > 0);
    lemma_enc_dict_front(es);
    let rest = es.subrange(1, es.len() as int);
    let d = enc_dict(es);
    let head = enc_bytes(es[0].0);
    let v = enc(es[0].1);
    if es[0].0 == k {
        let i = head.len() as int;
        assert(lookup(es, k) == Some(es[0].1));
        assert(d.subrange(i, i + v.len()) =~= v);
        assert(at(d, i, v));
        assert(at(enc_dict(es), i, enc(lookup(es, k)->0)));
    } else {
        assert(lookup(es, k) == lookup(rest, k));
        lemma_lookup_in_encoding(rest, k);
        let w = enc(lookup(es, k)->0);
        let j = choose|j: int| at(enc_dict(rest), j, w);
        let i = head.len() + v.len() + j;
        assert(d.subrange(i, i + w.len()) =~= enc_dict(rest).subrange(j, j + w.len()));
        assert(at(d, i, w));
        assert(at(enc_dict(es), i, enc(lookup(es, k)->0)));
    }
}

/// The value of the first entry of `entries` whose key is `key`.
pub fn dict_get<'a>(entries: &'a Vec<(Vec<u8>, Value)>, key: &[u8]) -> (r: Option<&'a Value>)
    ensures
        r is Some <==> lookup(crate::bencode::view_dict(entries@), key@) is Some,
        r matches Some(v) ==> lookup(crate::bencode::view_dict(entries@), key@) == Some(v@),
{
    let ghost es = crate::bencode::view_dict(entries@);
    proof {
        lemma_view_dict_len(entries@);
    }
    let mut i: usize = 0;
    while i < entries.len()
        invariant
            i <= entries@.len(),
            es == crate::bencode::view_dict(entries@),
            es.len() == entries@.len(),
            forall|j: int| 0 <= j < i ==> (#[trigger] es[j]).0 != key@,
        decreases entries@.len() - i,
    {
        proof {
            lemma_view_dict_index(entries@, i as int);
        }
        if bytes_eq(entries[i].0.as_slice(), key) {
            proof {
                lemma_lookup_skip(es, key@, i as int);
            }
            return Some(&entries[i].1);
        }
        i = i + 1;
    }
    proof {
        lemma_lookup_skip(es, key@, i as int);
    }
    None
}

/// Whether two byte strings are equal.
pub fn bytes_eq(a: &[u8], b: &[u8]) -> (r: bool)
    ensures
        r == (a@ == b@),
{
    if a.len() != b.len() {
        return false;
    }
    let mut i: usize = 0;
    while i < a.len()
        invariant
            i <= a@.len(),
            a@.len() == b@.len(),
            forall|j: int| 0 <= j < i ==> a@[j] == b@[j],
        decreases a@.len() - i,
    {
        if a[i] != b[i] {
            return false;
        }
        i = i + 1;
    }
    assert(a@ =~= b@);
    true
}

/// Whether `p` is a prefix of `s`.
pub open spec fn starts_with(s: Seq<u8>, p: Seq<u8>) -> bool {
    p.len() <= s.len() && s.subrange(0, p.len() as int) == p
}

pub fn has_prefix(s: &[u8], p: &[u8]) -> (r: bool)
    ensures
        r == starts_with(s@, p@),
{
    if p.len() > s.len() {
        return false;
    }
    let mut i: usize = 0;
    while i < p.len()
        invariant
            i <= p@.len() <= s@.len(),
            forall|j: int| 0 <= j < i ==> s@[j] == p@[j],
        decreases p@.len() - i,
    {
        if s[i] != p[i] {
            assert(s@.subrange(0, p@.len() as int)[i as int] != p@[i as int]);
            return false;
        }
        i = i + 1;
    }
    assert(s@.subrange(0, p@.len() as int) =~= p@);
    true
}

pub open spec fn scheme_http() -> Seq<u8> {
    seq![104u8, 116u8, 116u8, 112u8, 58u8, 47u8, 47u8]
}

pub open spec fn scheme_https() -> Seq<u8> {
    seq![104u8, 116u8, 116u8, 112u8, 115u8, 58u8, 47u8, 47u8]
}

pub open spec fn scheme_udp() -> Seq<u8> {
    seq![117u8, 100u8, 112u8, 58u8, 47u8, 47u8]
}

/// An announce URL of an accepted scheme: HTTP, HTTPS or UDP.
pub open spec fn accepted_scheme(a: Seq<u8>) -> bool {
    starts_with(a, scheme_http()) || starts_with(a, scheme_https()) || starts_with(a, scheme_udp())
}

/// Whether `url::Url::parse` accepts the bytes as UTF-8 text.
pub uninterp spec fn url_parses(s: Seq<u8>) -> bool;

/// Relies on `url::Url::parse` (after `std::str::from_utf8`): whether the bytes are UTF-8 text
/// that parses as a URL. The answer depends on the bytes alone.
#[verifier::external_body]
fn url_accepts(s: &[u8]) -> (r: bool)
    ensures
        r == url_parses(s@),
{
    match std::str::from_utf8(s) {
        Ok(t) => url::Url::parse(t).is_ok(),
        Err(_) => false,
    }
}

/// Whether `a` is an announce URL that the client can use.
pub fn valid_announce(a: &[u8]) -> (r: bool)
    ensures
        r == (accepted_scheme(a@) && url_parses(a@)),
{
    let http: Vec<u8> = vec![104u8, 116, 116, 112, 58, 47, 47];
    let https: Vec<u8> = vec![104u8, 116, 116, 112, 115, 58, 47, 47];
    let udp: Vec<u8> = vec![117u8, 100, 112, 58, 47, 47];
    assert(http@ =~= scheme_http());
    assert(https@ =~= scheme_https());
    assert(udp@ =~= scheme_udp());
    let scheme_ok = has_prefix(a, http.as_slice()) || has_prefix(a, https.as_slice())
        || has_prefix(a, udp.as_slice());
    scheme_ok && url_accepts(a)
}

/// A required key of the metainfo.
#[derive(Clone, Copy, Debug, PartialEq, Eq, Structural)]
pub enum Field {
    Announce,
    Info,
    Name,
    PieceLength,
    Pieces,
    Length,
}

/// Why metainfo bytes were refused.
#[derive(Clone, Copy, Debug, PartialEq, Eq, Structural)]
pub enum MetainfoError {
    Bencode(BencodeError),
    /// The top-level value is not a dictionary.
    NotADictionary,
    /// A required key is absent or holds a value of the wrong kind.
    MissingField(Field),
    /// `piece length` is not positive or does not fit in 32 bits.
    InvalidPieceLength,
    /// `length` is not positive.
    InvalidLength,
    /// The length of `pieces` is not a multiple of 20.
    InvalidPieces,
    /// `pieces` does not hold one hash for each piece that `length` implies.
    PieceCountMismatch,
    /// `announce` is not an HTTP, HTTPS or UDP URL.
    InvalidUrl,
}

/// Number of pieces of a payload: `ceil(length / piece_length)`.
pub open spec fn pieces_for(length: int, piece_length: int) -> int {
    (length + piece_length - 1) / piece_length
}

/// The first reason, in order of checking, for which `top` is not a usable single-file metainfo.
pub open spec fn metainfo_error(top: BValue) -> Option<MetainfoError> {
    match top {
        BValue::Dict(es) => {
            if get_bytes(es, key_announce()) is None {
                Some(MetainfoError::MissingField(Field::Announce))
            } else if get_dict(es, key_info()) is None {
                Some(MetainfoError::MissingField(Field::Info))
            } else {
                let info = get_dict(es, key_info())->0;
                if get_bytes(info, key_name()) is None {
                    Some(MetainfoError::MissingField(Field::Name))
                } else if get_int(info, key_piece_length()) is None {
                    Some(MetainfoError::MissingField(Field::PieceLength))
                } else if get_bytes(info, key_pieces()) is None {
                    Some(MetainfoError::MissingField(Field::Pieces))
                } else if get_int(info, key_length()) is None {
                    Some(MetainfoError::MissingField(Field::Length))
                } else {
                    let pl = get_int(info, key_piece_length())->0;
                    let len = get_int(info, key_length())->0;
                    let pieces = get_bytes(info, key_pieces())->0;
                    let a = get_bytes(es, key_announce())->0;
                    if pl <= 0 || pl > u32::MAX {
                        Some(MetainfoError::InvalidPieceLength)
                    } else if len <= 0 {
                        Some(MetainfoError::InvalidLength)
                    } else if pieces.len() % 20 != 0 {
                        Some(MetainfoError::InvalidPieces)
                    } else if pieces.len() / 20 != pieces_for(len, pl) {
                        Some(MetainfoError::PieceCountMismatch)
                    } else if !(accepted_scheme(a) && url_parses(a)) {
                        Some(MetainfoError::InvalidUrl)
                    } else {
                        None
                    }
                }
            }
        },
        _ => Some(MetainfoError::NotADictionary),
    }
}

/// The `info` part of a single-file torrent.
#[derive(Clone, Debug)]
pub struct TorrentInfo {
    pub name: Vec<u8>,
    pub piece_length: u64,
    pub pieces: Vec<u8>,
    pub length: u64,
}

/// A single-file torrent: tracker URL, `info` and the SHA-1 of the bencoded `info`.
#[derive(Clone, Debug)]
pub struct Torrent {
    pub announce: Vec<u8>,
    pub info: TorrentInfo,
    pub info_hash: [u8; 20],
}

impl TorrentInfo {
    /// Piece geometry holds: positive sizes, one 20-byte hash per piece.
    pub open spec fn wf(&self) -> bool {
        &&& 0 < self.piece_length <= u32::MAX
        &&& 0 < self.length
        &&& self.pieces@.len() % 20 == 0
        &&& self.pieces@.len() / 20 == pieces_for(self.length as int, self.piece_length as int)
    }

    pub open spec fn spec_num_pieces(&self) -> int {
        self.pieces@.len() as int / 20
    }

    /// Size of piece `i`: `piece_length`, but for the last piece, which holds what is left.
    pub open spec fn spec_piece_size(&self, i: int) -> int {
        if i < self.spec_num_pieces() - 1 {
            self.piece_length as int
        } else {
            self.length - (self.spec_num_pieces() - 1) * self.piece_length
        }
    }

    /// The expected SHA-1 of piece `i`.
    pub open spec fn spec_piece_hash(&self, i: int) -> Seq<u8> {
        self.pieces@.subrange(20 * i, 20 * i + 20)
    }
}

impl TorrentInfo {
    pub fn new(name: Vec<u8>, piece_length: u64, pieces: Vec<u8>, length: u64) -> (r: TorrentInfo)
        ensures
            r.name == name,
            r.piece_length == piece_length,
            r.pieces == pieces,
            r.length == length,
    {
        TorrentInfo { name, piece_length, pieces, length }
    }
}

impl Torrent {
    pub fn new(announce: Vec<u8>, info: TorrentInfo, info_hash: [u8; 20]) -> (r: Torrent)
        ensures
            r.announce == announce,
            r.info == info,
            r.info_hash == info_hash,
    {
        Torrent { announce, info, info_hash }
    }

    /// Builds a torrent from a decoded metainfo dictionary.
    pub fn from_value(top: &Value) -> (r: Result<Torrent, MetainfoError>)
        ensures
            metainfo_error(top@) is Some ==> r == Err::<Torrent, MetainfoError>(
                metainfo_error(top@)->0,
            ),
            metainfo_error(top@) is None ==> r is Ok,
            r matches Ok(t) ==> {
                let es = top@->Dict_0;
                let info = get_dict(es, key_info())->0;
                &&& top@ is Dict
                &&& t.announce@ == get_bytes(es, key_announce())->0
                &&& t.info.name@ == get_bytes(info, key_name())->0
                &&& t.info.piece_length == get_int(info, key_piece_length())->0
                &&& t.info.pieces@ == get_bytes(info, key_pieces())->0
                &&& t.info.length == get_int(info, key_length())->0
                &&& t.info_hash@ == sha1_of(enc(BValue::Dict(info)))
                &&& t.info.wf()
            },
    {
        let es = match top {
            Value::Dict(es) => es,
            _ => {
                return Err(MetainfoError::NotADictionary);
            },
        };
        let announce = match dict_get(es, announce_key().as_slice()) {
            Some(Value::Bytes(b)) => b,
            _ => {
                return Err(MetainfoError::MissingField(Field::Announce));
            },
        };
        let info_value = match dict_get(es, info_key().as_slice()) {
            Some(v) => v,
            None => {
                return Err(MetainfoError::MissingField(Field::Info));
            },
        };
        let info = match info_value {
            Value::Dict(d) => d,
            _ => {
                return Err(MetainfoError::MissingField(Field::Info));
            },
        };
        let name = match dict_get(info, name_key().as_slice()) {
            Some(Value::Bytes(b)) => b,
            _ => {
                return Err(MetainfoError::MissingField(Field::Name));
            },
        };
        let pl = match dict_get(info, piece_length_key().as_slice()) {
            Some(Value::Int(n)) => *n,
            _ => {
                return Err(MetainfoError::MissingField(Field::PieceLength));
            },
        };
        let pieces = match dict_get(info, pieces_key().as_slice()) {
            Some(Value::Bytes(b)) => b,
            _ => {
                return Err(MetainfoError::MissingField(Field::Pieces));
            },
        };
        let len = match dict_get(info, length_key().as_slice()) {
            Some(Value::Int(n)) => *n,
            _ => {
                return Err(MetainfoError::MissingField(Field::Length));
            },
        };
        if pl <= 0 || pl > 0xffff_ffff {
            return Err(MetainfoError::InvalidPieceLength);
        }
        if len <= 0 {
            return Err(MetainfoError::InvalidLength);
        }
        if pieces.len() % 20 != 0 {
            return Err(MetainfoError::InvalidPieces);
        }
        let plu = pl as u64;
        let lenu = len as u64;
        let count = (lenu - 1) / plu + 1;
        assert(count == pieces_for(len as int, pl as int)) by (nonlinear_arith)
            requires
                count as int == (lenu as int - 1) / (plu as int) + 1,
                plu == pl,
                lenu == len,
                pl > 0,
                len > 0,
        ;
        if (pieces.len() / 20) as u64 != count {
            return Err(MetainfoError::PieceCountMismatch);
        }
        if !valid_announce(announce.as_slice()) {
            return Err(MetainfoError::InvalidUrl);
        }
        let info_bytes = encode(info_value);
        let info_hash = sha1_digest(info_bytes.as_slice());
        Ok(
            Torrent {
                announce: announce.clone(),
                info: TorrentInfo {
                    name: name.clone(),
                    piece_length: plu,
                    pieces: pieces.clone(),
                    length: lenu,
                },
                info_hash,
            },
        )
    }

    /// Parses metainfo bytes.
    pub fn from_bytes(bytes: &[u8]) -> (r: Result<Torrent, MetainfoError>)
        ensures
            (forall|top: BValue| wf_value(top) ==> enc(top) != bytes@) ==> r matches Err(
                MetainfoError::Bencode(_),
            ),
            forall|top: BValue|
                wf_value(top) && #[trigger] enc(top) == bytes@ ==> if metainfo_error(top) is Some {
                    r == Err::<Torrent, MetainfoError>(metainfo_error(top)->0)
                } else {
                    r is Ok
                },
            r matches Ok(t) ==> exists|top: BValue|
                {
                    let es = top->Dict_0;
                    let info = get_dict(es, key_info())->0;
                    &&& #[trigger] enc(top) == bytes@
                    &&& metainfo_error(top) is None
                    &&& top is Dict
                    &&& t.announce@ == get_bytes(es, key_announce())->0
                    &&& t.info.name@ == get_bytes(info, key_name())->0
                    &&& t.info.piece_length == get_int(info, key_piece_length())->0
                    &&& t.info.pieces@ == get_bytes(info, key_pieces())->0
                    &&& t.info.length == get_int(info, key_length())->0
                    &&& t.info_hash@ == sha1_of(enc(BValue::Dict(info)))
                    &&& t.info.wf()
                    &&& exists|off: int| at(bytes@, off, enc(BValue::Dict(info)))
                },
    {
        let top = match decode(bytes) {
            Ok(v) => v,
            Err(e) => {
                return Err(MetainfoError::Bencode(e));
            },
        };
        proof {
            crate::bencode::lemma_value_wf(top);
        }
        let t = Torrent::from_value(&top)?;
        proof {
            let es = top@->Dict_0;
            let info = BValue::Dict(get_dict(es, key_info())->0);
            lemma_lookup_in_encoding(es, key_info());
            let w = enc(info);
            let j = choose|j: int| at(enc_dict(es), j, w);
            let off = 1 + j;
            assert(bytes@ == seq![100u8] + enc_dict(es) + seq![101u8]);
            assert(bytes@.subrange(off, off + w.len()) =~= enc_dict(es).subrange(j, j + w.len()));
            assert(at(bytes@, off, w));
        }
        Ok(t)
    }
}

/// Size of a block requested from a peer (16 KiB).
pub const BLOCK_SIZE: u32 = 16384;

/// Number of blocks in a piece of `size` bytes: `ceil(size / BLOCK_SIZE)`.
pub open spec fn blocks_for(size: int) -> int {
    (size + BLOCK_SIZE - 1) / BLOCK_SIZE as int
}

/// Offset and length of block `k` of a piece of `size` bytes: full blocks, the last one truncated.
pub open spec fn block_spec(size: int, k: int) -> (int, int) {
    let begin = k * BLOCK_SIZE;
    (begin, if size - begin < BLOCK_SIZE { size - begin } else { BLOCK_SIZE as int })
}

/// The requests that fetch a piece of `size` bytes: `(begin, length)` for each block, in order.
pub fn block_plan(size: u32) -> (r: Vec<(u32, u32)>)
    ensures
        r@.len() == blocks_for(size as int),
        forall|k: int|
            0 <= k < r@.len() ==> (#[trigger] r@[k]).0 as int == block_spec(size as int, k).0
                && r@[k].1 as int == block_spec(size as int, k).1,
{
    let mut r: Vec<(u32, u32)> = Vec::new();
    let mut begin: u64 = 0;
    while begin < size as u64
        invariant
            begin as int == r@.len() * 16384,
            r@.len() > 0 ==> (r@.len() - 1) * 16384 < size,
            begin <= size as int + 16384,
            forall|k: int|
                0 <= k < r@.len() ==> (#[trigger] r@[k]).0 as int == block_spec(size as int, k).0
                    && r@[k].1 as int == block_spec(size as int, k).1,
        decreases size as int + 16384 - begin,
    {
        let rest = size as u64 - begin;
        let len: u32 = if rest < BLOCK_SIZE as u64 {
            rest as u32
        } else {
            BLOCK_SIZE
        };
        r.push((begin as u32, len));
        begin = begin + BLOCK_SIZE as u64;
    }
    let ghost n = r@.len() as int;
    assert(n == blocks_for(size as int)) by (nonlinear_arith)
        requires
            n * 16384 >= size,
            n > 0 ==> (n - 1) * 16384 < size,
            size >= 0,
            n >= 0,
    ;
    r
}

impl TorrentInfo {
    /// Number of pieces.
    pub fn num_pieces(&self) -> (r: usize)
        ensures
            r == self.spec_num_pieces(),
    {
        self.pieces.len() / 20
    }

    /// Size of piece `index`.
    pub fn piece_size(&self, index: usize) -> (r: u32)
        requires
            self.wf(),
            index < self.spec_num_pieces(),
        ensures
            r == self.spec_piece_size(index as int),
            0 < r <= self.piece_length,
    {
        let n = self.pieces.len() / 20;
        let pl = self.piece_length;
        let len = self.length;
        proof {
            let ni = n as int;
            let pli = pl as int;
            let li = len as int;
            assert(ni == (li + pli - 1) / pli);
            assert((ni - 1) * pli < li && li <= ni * pli) by (nonlinear_arith)
                requires
                    ni == (li + pli - 1) / pli,
                    pli > 0,
                    li > 0,
            ;
            assert(0 <= (index as int) * pli <= (ni - 1) * pli) by (nonlinear_arith)
                requires
                    0 <= index < ni,
                    pli > 0,
            ;
        }
        if index + 1 < n {
            pl as u32
        } else {
            assert((n as int - 1) * (pl as int) < len as int && len as int <= (n as int) * (
            pl as int));
            let last = (n as u64 - 1) * pl;
            let size = len - last;
            assert(size as int <= pl as int) by (nonlinear_arith)
                requires
                    len as int <= (n as int) * (pl as int),
                    size as int == len as int - last as int,
                    last as int == (n as int - 1) * (pl as int),
            ;
            size as u32
        }
    }

    /// Byte offset of piece `index` in the payload.
    pub fn piece_offset(&self, index: usize) -> (r: u64)
        requires
            self.wf(),
            index < self.spec_num_pieces(),
        ensures
            r == index * self.piece_length,
            r + self.spec_piece_size(index as int) <= self.length,
    {
        let ghost ni = self.spec_num_pieces();
        let ghost pli = self.piece_length as int;
        let ghost li = self.length as int;
        proof {
            assert((ni - 1) * pli < li && li <= ni * pli) by (nonlinear_arith)
                requires
                    ni == (li + pli - 1) / pli,
                    pli > 0,
                    li > 0,
            ;
            assert((index as int) * pli + pli <= ni * pli) by (nonlinear_arith)
                requires
                    0 <= index < ni,
                    pli > 0,
            ;
            assert((index as int) * pli <= (ni - 1) * pli) by (nonlinear_arith)
                requires
                    0 <= index < ni,
                    pli > 0,
            ;
            if index < ni - 1 {
                assert((index as int) * pli + pli <= (ni - 1) * pli) by (nonlinear_arith)
                    requires
                        0 <= index < ni - 1,
                        pli > 0,
                ;
            }
        }
        index as u64 * self.piece_length
    }

    /// The expected SHA-1 of piece `index`.
    pub fn piece_hash(&self, index: usize) -> (r: [u8; 20])
        requires
            index < self.spec_num_pieces(),
        ensures
            r@ == self.spec_piece_hash(index as int),
    {
        hash_at(self.pieces.as_slice(), index)
    }

    /// The expected SHA-1 of each piece, in order.
    pub fn piece_hashes(&self) -> (r: Vec<[u8; 20]>)
        ensures
            r@.len() == self.spec_num_pieces(),
            forall|i: int| 0 <= i < r@.len() ==> (#[trigger] r@[i])@ == self.spec_piece_hash(i),
    {
        split_hashes(self.pieces.as_slice())
    }
}

/// The 20-byte run of `pieces` at index `index`.
fn hash_at(pieces: &[u8], index: usize) -> (r: [u8; 20])
    requires
        index < pieces@.len() / 20,
    ensures
        r@ == pieces@.subrange(20 * index, 20 * index + 20),
{
    let total = pieces.len();
    let mut h = [0u8; 20];
    let base = 20 * index;
    let mut j: usize = 0;
    while j < 20
        invariant
            j <= 20,
            base == 20 * index,
            base + 20 <= pieces@.len(),
            total == pieces@.len(),
            h@.len() == 20,
            forall|k: int| 0 <= k < j ==> h@[k] == pieces@[base + k],
        decreases 20 - j,
    {
        h[j] = pieces[base + j];
        j = j + 1;
    }
    assert(h@ =~= pieces@.subrange(20 * index, 20 * index + 20));
    h
}

/// Cuts `pieces` into 20-byte hashes, ignoring a shorter remainder.
pub fn split_hashes(pieces: &[u8]) -> (r: Vec<[u8; 20]>)
    ensures
        r@.len() == pieces@.len() / 20,
        forall|i: int|
            0 <= i < r@.len() ==> (#[trigger] r@[i])@ == pieces@.subrange(20 * i, 20 * i + 20),
{
    let n = pieces.len() / 20;
    let mut r: Vec<[u8; 20]> = Vec::new();
    let mut i: usize = 0;
    while i < n
        invariant
            i <= n,
            n == pieces@.len() / 20,
            r@.len() == i,
            forall|k: int|
                0 <= k < i ==> (#[trigger] r@[k])@ == pieces@.subrange(20 * k, 20 * k + 20),
        decreases n - i,
    {
        r.push(hash_at(pieces, i));
        i = i + 1;
    }
    r
}

/// The `pieces` string of a torrent: SHA-1 hashes, 20 bytes each, one after another.
#[derive(Clone, Debug)]
pub struct Hashes(pub Vec<u8>);

impl Hashes {
    /// The hashes, one array each.
    pub fn to_hash_vec(&self) -> (r: Vec<[u8; 20]>)
        ensures
            r@.len() == self.0@.len() / 20,
            forall|i: int|
                0 <= i < r@.len() ==> (#[trigger] r@[i])@ == self.0@.subrange(20 * i, 20 * i + 20),
    {
        split_hashes(self.0.as_slice())
    }
}

/// One file of a multi-file torrent.
#[derive(Clone, Debug)]
pub struct FileInfo {
    pub length: i64,
    pub path: Vec<String>,
}

impl FileInfo {
    pub fn new(length: i64, path: Vec<String>) -> (r: FileInfo)
        ensures
            r.length == length,
            r.path == path,
    {
        FileInfo { length, path }
    }
}

} // verus!
