use vstd::prelude::*;
use crate::endian::{copy_range, get_be32, push_all, read_be32};

verus! {

/// The protocol string `BitTorrent protocol`.
pub open spec fn protocol_name() -> Seq<u8> {
    seq![66u8, 105u8, 116u8, 84u8, 111u8, 114u8, 114u8, 101u8, 110u8, 116u8, 32u8, 112u8, 114u8, 111u8, 116u8, 111u8, 99u8, 111u8, 108u8]
}

/// The 68-byte handshake: protocol length 19, protocol string, reserved bytes, info hash, peer id.
pub open spec fn handshake_bytes(reserved: Seq<u8>, info_hash: Seq<u8>, peer_id: Seq<u8>) -> Seq<
    u8,
> {
    seq![19u8] + protocol_name() + reserved + info_hash + peer_id
}

/// Why a peer's handshake was refused.
#[derive(Clone, Copy, Debug, PartialEq, Eq, Structural)]
pub enum HandshakeError {
    /// The record is not 68 bytes long.
    InvalidLength,
    /// The record does not open with the protocol length and string.
    InvalidProtocol,
    /// The peer answered for another torrent.
    InfoHashMismatch,
}

/// The greeting that opens every peer connection.
#[derive(Clone, Copy, Debug)]
pub struct Handshake {
    pub reserved: [u8; 8],
    pub info_hash: [u8; 20],
    pub peer_id: [u8; 20],
}

/// Appends the protocol string.
fn push_protocol(out: &mut Vec<u8>)
    ensures
        final(out)@ == old(out)@ + protocol_name(),
{
    let p: Vec<u8> = vec![66u8, 105u8, 116u8, 84u8, 111u8, 114u8, 114u8, 101u8, 110u8, 116u8, 32u8, 112u8, 114u8, 111u8, 116u8, 111u8, 99u8, 111u8, 108u8];
    assert(p@ =~= protocol_name());
    push_all(out, p.as_slice());
}

impl Handshake {
    /// The local handshake: reserved bytes all zero.
    pub fn new(info_hash: [u8; 20], peer_id: [u8; 20]) -> (r: Handshake)
        ensures
            r.reserved@ == seq![0u8; 8],
            r.info_hash == info_hash,
            r.peer_id == peer_id,
    {
        let r = Handshake { reserved: [0u8; 8], info_hash, peer_id };
        assert(r.reserved@ =~= seq![0u8; 8]);
        r
    }

    pub open spec fn spec_bytes(&self) -> Seq<u8> {
        handshake_bytes(self.reserved@, self.info_hash@, self.peer_id@)
    }

    /// The 68 bytes sent on the wire.
    pub fn to_bytes(&self) -> (r: Vec<u8>)
        ensures
            r@ == self.spec_bytes(),
            r@.len() == 68,
    {
        let mut out: Vec<u8> = Vec::new();
        out.push(19);
        push_protocol(&mut out);
        push_all(&mut out, &self.reserved);
        push_all(&mut out, &self.info_hash);
        push_all(&mut out, &self.peer_id);
        assert(out@ =~= self.spec_bytes());
        out
    }

    /// The 68 bytes sent on the wire.
    pub fn as_bytes(&self) -> (r: Vec<u8>)
        ensures
            r@ == self.spec_bytes(),
    {
        self.to_bytes()
    }

    /// Reads a peer's 68-byte handshake.
    pub fn from_bytes(bytes: &[u8]) -> (r: Result<Handshake, HandshakeError>)
        ensures
            bytes@.len() != 68 ==> r == Err::<Handshake, HandshakeError>(
                HandshakeError::InvalidLength,
            ),
            bytes@.len() == 68 && bytes@.subrange(0, 20) != seq![19u8] + protocol_name() ==> r
                == Err::<Handshake, HandshakeError>(HandshakeError::InvalidProtocol),
            bytes@.len() == 68 && bytes@.subrange(0, 20) == seq![19u8] + protocol_name() ==> r
                is Ok,
            r matches Ok(h) ==> h.spec_bytes() == bytes@,
    {
        if bytes.len() != 68 {
            return Err(HandshakeError::InvalidLength);
        }
        let mut head: Vec<u8> = Vec::new();
        head.push(19);
        push_protocol(&mut head);
        let mut i: usize = 0;
        while i < 20
            invariant
                i <= 20,
                bytes@.len() == 68,
                head@ == seq![19u8] + protocol_name(),
                forall|j: int| 0 <= j < i ==> bytes@[j] == head@[j],
            decreases 20 - i,
        {
            if bytes[i] != head[i] {
                assert(bytes@.subrange(0, 20)[i as int] != head@[i as int]);
                return Err(HandshakeError::InvalidProtocol);
            }
            i = i + 1;
        }
        assert(bytes@.subrange(0, 20) =~= head@);
        let mut h = Handshake { reserved: [0u8; 8], info_hash: [0u8; 20], peer_id: [0u8; 20] };
        let mut k: usize = 0;
        while k < 8
            invariant
                k <= 8,
                bytes@.len() == 68,
                h.reserved@.len() == 8,
                forall|j: int| 0 <= j < k ==> h.reserved@[j] == bytes@[20 + j],
            decreases 8 - k,
        {
            h.reserved[k] = bytes[20 + k];
            k = k + 1;
        }
        let mut k: usize = 0;
        while k < 20
            invariant
                k <= 20,
                bytes@.len() == 68,
                h.reserved@.len() == 8,
                h.info_hash@.len() == 20,
                h.peer_id@.len() == 20,
                forall|j: int| 0 <= j < 8 ==> h.reserved@[j] == bytes@[20 + j],
                forall|j: int| 0 <= j < k ==> h.info_hash@[j] == bytes@[28 + j],
                forall|j: int| 0 <= j < k ==> h.peer_id@[j] == bytes@[48 + j],
            decreases 20 - k,
        {
            h.info_hash[k] = bytes[28 + k];
            h.peer_id[k] = bytes[48 + k];
            k = k + 1;
        }
        assert(h.spec_bytes() =~= bytes@);
        Ok(h)
    }
}

/// Checks a peer's reply to our handshake and returns the peer's id.
pub fn check_reply(reply: &[u8], info_hash: &[u8; 20]) -> (r: Result<[u8; 20], HandshakeError>)
    ensures
        r is Ok <==> (reply@.len() == 68 && reply@.subrange(0, 20) == seq![19u8] + protocol_name()
            && reply@.subrange(28, 48) == info_hash@),
        r matches Ok(id) ==> id@ == reply@.subrange(48, 68),
        r matches Err(e) ==> e == (if reply@.len() != 68 {
            HandshakeError::InvalidLength
        } else if reply@.subrange(0, 20) != seq![19u8] + protocol_name() {
            HandshakeError::InvalidProtocol
        } else {
            HandshakeError::InfoHashMismatch
        }),
{
    let h = Handshake::from_bytes(reply)?;
    proof {
        let b = h.spec_bytes();
        assert(b.subrange(28, 48) =~= h.info_hash@);
        assert(b.subrange(48, 68) =~= h.peer_id@);
        assert(b.subrange(0, 20) =~= seq![19u8] + protocol_name());
    }
    if !crate::digest::same_digest(&h.info_hash, info_hash) {
        return Err(HandshakeError::InfoHashMismatch);
    }
    Ok(h.peer_id)
}

/// The body of a `piece` message: piece index, offset in the piece, and the block's bytes.
#[derive(Clone, Debug)]
pub struct Piece {
    index: u32,
    begin: u32,
    block: Vec<u8>,
}

impl Piece {
    pub closed spec fn spec_index(&self) -> u32 {
        self.index
    }

    pub closed spec fn spec_begin(&self) -> u32 {
        self.begin
    }

    pub closed spec fn spec_block(&self) -> Seq<u8> {
        self.block@
    }

    pub fn index(&self) -> (r: u32)
        ensures
            r == self.spec_index(),
    {
        self.index
    }

    pub fn begin(&self) -> (r: u32)
        ensures
            r == self.spec_begin(),
    {
        self.begin
    }

    pub fn block(&self) -> (r: &[u8])
        ensures
            r@ == self.spec_block(),
    {
        self.block.as_slice()
    }

    /// Reads `index`, `begin` (big-endian) and the block that follows them.
    pub fn from_bytes(data: &[u8]) -> (r: Option<Piece>)
        ensures
            r is Some <==> data@.len() >= 8,
            r matches Some(p) ==> p.spec_index() == read_be32(data@, 0) && p.spec_begin()
                == read_be32(data@, 4) && p.spec_block() == data@.subrange(8, data@.len() as int),
    {
        if data.len() < 8 {
            return None;
        }
        Some(
            Piece {
                index: get_be32(data, 0),
                begin: get_be32(data, 4),
                block: copy_range(data, 8, data.len()),
            },
        )
    }
}

} // verus!
