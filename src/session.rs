use vstd::prelude::*;
use crate::endian::push_all;
use crate::handshake::{check_reply, protocol_name, Handshake, HandshakeError};
use crate::metainfo::{block_spec, BLOCK_SIZE};
use crate::wire::{Message, MessageView};

verus! {

/// Where a peer session stands.
#[derive(Clone, Copy, Debug, PartialEq, Eq, Structural)]
pub enum SessionState {
    Connecting,
    HandshakeSent,
    /// The peer's handshake checked out; its bitfield comes next.
    HandshakeAck,
    /// We declared interest and wait to be unchoked.
    Interested,
    /// Unchoked and idle: ready for a piece.
    Unchoked,
    /// A block request is outstanding.
    Requesting,
    Closed,
}

/// Why a session was closed.
#[derive(Clone, Copy, Debug, PartialEq, Eq, Structural)]
pub enum SessionError {
    Handshake(HandshakeError),
    /// A message that the current state does not allow.
    UnexpectedMessage,
    /// A block whose index, offset or length is not the one requested.
    BlockMismatch,
    /// The peer choked us while a block was outstanding.
    Choked,
}

/// What the session asks its driver to do after a message.
#[derive(Debug)]
pub enum Step {
    /// Send this message, then read the next one.
    Send(Message),
    /// Read the next message.
    Wait,
    /// Unchoked and idle: assign a piece with `request_piece`.
    Ready,
    /// The requested piece is complete.
    PieceDone(Vec<u8>),
}

/// Whether a bitfield marks piece `index`: bit `7 - index % 8` of byte `index / 8`, so that the
/// first piece is the most significant bit of the first byte.
pub open spec fn bit_set(bitfield: Seq<u8>, index: int) -> bool {
    index / 8 < bitfield.len() && (bitfield[index / 8] >> ((7 - index % 8) as u8)) & 1u8 == 1u8
}

/// Whether `bitfield` marks piece `index`; bits past its end count as unset.
pub fn has_piece(bitfield: &[u8], index: usize) -> (r: bool)
    ensures
        r == bit_set(bitfield@, index as int),
{
    let byte = index / 8;
    if byte >= bitfield.len() {
        return false;
    }
    let shift = (7 - index % 8) as u8;
    (bitfield[byte] >> shift) & 1u8 == 1u8
}

/// One peer connection's protocol state, driven by the worker that owns it.
pub struct Session {
    pub state: SessionState,
    pub info_hash: [u8; 20],
    pub peer_id: [u8; 20],
    pub remote_id: [u8; 20],
    pub bitfield: Vec<u8>,
    pub index: u32,
    pub size: u32,
    pub received: Vec<u8>,
}

impl Session {
    /// While a piece is requested: `received` holds whole blocks, fewer than the piece's size.
    pub open spec fn wf(&self) -> bool {
        self.state == SessionState::Requesting ==> {
            &&& self.received@.len() < self.size
            &&& (self.received@.len() as int) % (BLOCK_SIZE as int) == 0
        }
    }

    /// The request for the block that starts at `received.len()`.
    pub open spec fn next_request(&self) -> MessageView {
        let b = block_spec(self.size as int, self.received@.len() as int / BLOCK_SIZE as int);
        MessageView::Request { index: self.index, begin: b.0 as u32, length: b.1 as u32 }
    }

    pub fn new(info_hash: [u8; 20], peer_id: [u8; 20]) -> (r: Session)
        ensures
            r.wf(),
            r.state == SessionState::Connecting,
            r.info_hash == info_hash,
            r.peer_id == peer_id,
    {
        Session {
            state: SessionState::Connecting,
            info_hash,
            peer_id,
            remote_id: [0u8; 20],
            bitfield: Vec::new(),
            index: 0,
            size: 0,
            received: Vec::new(),
        }
    }

    /// The connection is open: the handshake to send.
    pub fn on_connected(&mut self) -> (r: Vec<u8>)
        requires
            old(self).state == SessionState::Connecting,
        ensures
            final(self).state == SessionState::HandshakeSent,
            r@ == crate::handshake::handshake_bytes(
                seq![0u8; 8],
                old(self).info_hash@,
                old(self).peer_id@,
            ),
            final(self).info_hash == old(self).info_hash,
            final(self).wf(),
    {
        self.state = SessionState::HandshakeSent;
        Handshake::new(self.info_hash, self.peer_id).to_bytes()
    }

    /// The peer's 68-byte reply arrived.
    pub fn on_handshake(&mut self, reply: &[u8]) -> (r: Result<(), SessionError>)
        requires
            old(self).state == SessionState::HandshakeSent,
        ensures
            final(self).wf(),
            final(self).info_hash == old(self).info_hash,
            r is Ok <==> (reply@.len() == 68 && reply@.subrange(0, 20) == seq![19u8]
                + protocol_name() && reply@.subrange(28, 48) == old(self).info_hash@),
            r is Ok ==> final(self).state == SessionState::HandshakeAck && final(self).remote_id@
                == reply@.subrange(48, 68),
            r is Err ==> final(self).state == SessionState::Closed,
    {
        match check_reply(reply, &self.info_hash) {
            Ok(id) => {
                self.remote_id = id;
                self.state = SessionState::HandshakeAck;
                Ok(())
            },
            Err(e) => {
                self.state = SessionState::Closed;
                Err(SessionError::Handshake(e))
            },
        }
    }

    /// Whether the peer announced piece `index` in its bitfield.
    pub fn peer_has(&self, index: usize) -> (r: bool)
        ensures
            r == bit_set(self.bitfield@, index as int),
    {
        has_piece(self.bitfield.as_slice(), index)
    }

    fn close(&mut self, e: SessionError) -> (r: Result<Step, SessionError>)
        ensures
            final(self).state == SessionState::Closed,
            final(self).info_hash == old(self).info_hash,
            r == Err::<Step, SessionError>(e),
            final(self).wf(),
    {
        self.state = SessionState::Closed;
        Err(e)
    }

    /// Starts fetching piece `index` of `size` bytes: the first block request to send.
    pub fn request_piece(&mut self, index: u32, size: u32) -> (r: Message)
        requires
            old(self).state == SessionState::Unchoked,
            size > 0,
        ensures
            final(self).wf(),
            final(self).state == SessionState::Requesting,
            final(self).index == index,
            final(self).size == size,
            final(self).received@.len() == 0,
            r@ == final(self).next_request(),
    {
        self.state = SessionState::Requesting;
        self.index = index;
        self.size = size;
        self.received = Vec::new();
        self.block_request()
    }

    fn block_request(&self) -> (r: Message)
        requires
            self.wf(),
            self.state == SessionState::Requesting,
        ensures
            r@ == self.next_request(),
    {
        let begin = self.received.len() as u32;
        let rest = self.size - begin;
        let length = if rest < BLOCK_SIZE {
            rest
        } else {
            BLOCK_SIZE
        };
        proof {
            let k = self.received@.len() as int / BLOCK_SIZE as int;
            assert(k * BLOCK_SIZE == self.received@.len());
        }
        Message::Request { index: self.index, begin, length }
    }

    /// A message arrived from the peer.
    pub fn on_message(&mut self, m: Message) -> (r: Result<Step, SessionError>)
        requires
            old(self).wf(),
        ensures
            final(self).wf(),
            final(self).info_hash == old(self).info_hash,
            r is Err ==> final(self).state == SessionState::Closed,
            old(self).state == SessionState::HandshakeAck ==> match m@ {
                MessageView::Bitfield(b) => final(self).state == SessionState::Interested
                    && final(self).bitfield@ == b && r matches Ok(Step::Send(Message::Interested)),
                MessageView::KeepAlive => final(self).state == old(self).state && r matches Ok(
                    Step::Wait,
                ),
                _ => r == Err::<Step, SessionError>(SessionError::UnexpectedMessage),
            },
            old(self).state == SessionState::Interested ==> match m@ {
                MessageView::Unchoke => final(self).state == SessionState::Unchoked && r matches Ok(
                    Step::Ready,
                ),
                MessageView::Piece { .. } => r == Err::<Step, SessionError>(
                    SessionError::UnexpectedMessage,
                ),
                _ => final(self).state == old(self).state && r matches Ok(Step::Wait),
            },
            old(self).state == SessionState::Requesting ==> match m@ {
                MessageView::Piece { index, begin, block } => {
                    let req = old(self).next_request();
                    if index == req->Request_index && begin == req->Request_begin && block.len()
                        == req->Request_length {
                        let data = old(self).received@ + block;
                        if data.len() == old(self).size {
                            final(self).state == SessionState::Unchoked && (r matches Ok(
                                Step::PieceDone(d),
                            ) && d@ == data)
                        } else {
                            final(self).state == SessionState::Requesting && final(self).received@
                                == data && final(self).index == old(self).index && final(self).size
                                == old(self).size && (r matches Ok(Step::Send(q)) && q@
                                == final(self).next_request())
                        }
                    } else {
                        r == Err::<Step, SessionError>(SessionError::BlockMismatch)
                    }
                },
                MessageView::Choke => r == Err::<Step, SessionError>(SessionError::Choked),
                _ => final(self).state == old(self).state && final(self).received@ == old(
                    self,
                ).received@ && r matches Ok(Step::Wait),
            },
            old(self).state == SessionState::Unchoked ==> match m@ {
                MessageView::Choke => final(self).state == SessionState::Interested && r matches Ok(
                    Step::Wait,
                ),
                MessageView::Piece { .. } => r == Err::<Step, SessionError>(
                    SessionError::UnexpectedMessage,
                ),
                _ => final(self).state == old(self).state && r matches Ok(Step::Wait),
            },
            (old(self).state == SessionState::Connecting || old(self).state
                == SessionState::HandshakeSent || old(self).state == SessionState::Closed) ==> r
                == Err::<Step, SessionError>(
                SessionError::UnexpectedMessage,
            ),
    {
        match self.state {
            SessionState::HandshakeAck => match m {
                Message::Bitfield(b) => {
                    self.bitfield = b;
                    self.state = SessionState::Interested;
                    Ok(Step::Send(Message::Interested))
                },
                Message::KeepAlive => Ok(Step::Wait),
                _ => self.close(SessionError::UnexpectedMessage),
            },
            SessionState::Interested => match m {
                Message::Unchoke => {
                    self.state = SessionState::Unchoked;
                    Ok(Step::Ready)
                },
                Message::Piece { .. } => self.close(SessionError::UnexpectedMessage),
                _ => Ok(Step::Wait),
            },
            SessionState::Requesting => match m {
                Message::Piece { index, begin, block } => {
                    let expected = self.block_request();
                    let ok = match expected {
                        Message::Request { index: ei, begin: eb, length: el } => index == ei
                            && begin == eb && block.len() == el as usize,
                        _ => false,
                    };
                    if !ok {
                        return self.close(SessionError::BlockMismatch);
                    }
                    push_all(&mut self.received, block.as_slice());
                    if self.received.len() == self.size as usize {
                        self.state = SessionState::Unchoked;
                        let data = crate::endian::copy_range(
                            self.received.as_slice(),
                            0,
                            self.received.len(),
                        );
                        self.received = Vec::new();
                        assert(data@ =~= old(self).received@ + block@);
                        Ok(Step::PieceDone(data))
                    } else {
                        proof {
                            let old_len = old(self).received@.len() as int;
                            let k = old_len / BLOCK_SIZE as int;
                            assert(k * BLOCK_SIZE == old_len);
                            assert(block@.len() == BLOCK_SIZE);
                            assert((old_len + BLOCK_SIZE) % (BLOCK_SIZE as int) == 0);
                        }
                        Ok(Step::Send(self.block_request()))
                    }
                },
                Message::Choke => self.close(SessionError::Choked),
                _ => Ok(Step::Wait),
            },
            SessionState::Unchoked => match m {
                Message::Choke => {
                    self.state = SessionState::Interested;
                    Ok(Step::Wait)
                },
                Message::Piece { .. } => self.close(SessionError::UnexpectedMessage),
                _ => Ok(Step::Wait),
            },
            _ => self.close(SessionError::UnexpectedMessage),
        }
    }
}

} // verus!
