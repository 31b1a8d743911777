use vstd::prelude::*;
use std::collections::VecDeque;
use crate::digest::{matches_digest, sha1_of};
use crate::metainfo::TorrentInfo;

verus! {

/// Where a piece stands in the download.
#[derive(Clone, Copy, Debug, PartialEq, Eq, Structural)]
pub enum PieceStatus {
    /// Waiting in the queue.
    Pending,
    /// Claimed by the worker with this number.
    InFlight(usize),
    /// Received and verified.
    Done,
    /// Given up after this many failed attempts.
    Failed(u32),
}

/// Why the download stopped.
#[derive(Clone, Copy, Debug, PartialEq, Eq, Structural)]
pub enum SchedulerError {
    /// The piece failed as many times as the retry cap allows.
    PieceExhausted(usize),
}

/// Bytes `d` are piece `i` of the torrent: right size and right SHA-1.
pub open spec fn piece_verified(info: TorrentInfo, i: int, d: Seq<u8>) -> bool {
    d.len() == info.spec_piece_size(i) && sha1_of(d) == info.spec_piece_hash(i)
}

/// The shared work queue of a download: pending piece indices in FIFO order, the status of each
/// piece, its failed attempts, and the verified bytes of each finished piece.
pub struct WorkQueue {
    pub info: TorrentInfo,
    pub queue: VecDeque<usize>,
    pub status: Vec<PieceStatus>,
    pub attempts: Vec<u32>,
    pub pieces: Vec<Option<Vec<u8>>>,
    pub max_attempts: u32,
}

impl WorkQueue {
    pub open spec fn n(&self) -> int {
        self.info.spec_num_pieces()
    }

    /// Queue and status table agree: an index waits in the queue, once, exactly when it is
    /// pending; a piece is done exactly when verified bytes are held for it.
    pub open spec fn wf(&self) -> bool {
        &&& self.info.wf()
        &&& self.max_attempts > 0
        &&& self.status@.len() == self.n()
        &&& self.attempts@.len() == self.n()
        &&& self.pieces@.len() == self.n()
        &&& forall|k: int| 0 <= k < self.queue@.len() ==> #[trigger] self.queue@[k] < self.n()
        &&& forall|a: int, b: int|
            0 <= a < b < self.queue@.len() ==> #[trigger] self.queue@[a] != #[trigger] self.queue@[b]
        &&& forall|i: usize|
            i < self.n() ==> ((#[trigger] self.status@[i as int] is Pending)
                <==> self.queue@.contains(i))
        &&& forall|i: int|
            0 <= i < self.n() ==> ((#[trigger] self.status@[i] is Done) <==> self.pieces@[i] is Some)
        &&& forall|i: int|
            0 <= i < self.n() ==> (#[trigger] self.pieces@[i] matches Some(d) ==> piece_verified(
                self.info,
                i,
                d@,
            ))
        &&& forall|i: int|
            0 <= i < self.n() ==> #[trigger] self.attempts@[i] < self.max_attempts
                || self.status@[i] is Failed
    }

    /// All pieces pending, in index order.
    pub fn new(info: TorrentInfo, max_attempts: u32) -> (r: WorkQueue)
        requires
            info.wf(),
            max_attempts > 0,
        ensures
            r.wf(),
            r.info == info,
            r.max_attempts == max_attempts,
            r.queue@.len() == info.spec_num_pieces(),
            forall|k: int| 0 <= k < r.queue@.len() ==> r.queue@[k] == k,
            forall|i: int| 0 <= i < r.n() ==> r.status@[i] == PieceStatus::Pending,
            forall|i: int| 0 <= i < r.n() ==> r.attempts@[i] == 0,
    {
        let n = info.num_pieces();
        let mut queue: VecDeque<usize> = VecDeque::new();
        let mut status: Vec<PieceStatus> = Vec::new();
        let mut attempts: Vec<u32> = Vec::new();
        let mut pieces: Vec<Option<Vec<u8>>> = Vec::new();
        let mut i: usize = 0;
        while i < n
            invariant
                i <= n,
                queue@.len() == i,
                status@.len() == i,
                attempts@.len() == i,
                pieces@.len() == i,
                forall|k: int| 0 <= k < i ==> queue@[k] == k,
                forall|k: int| 0 <= k < i ==> status@[k] == PieceStatus::Pending,
                forall|k: int| 0 <= k < i ==> attempts@[k] == 0,
                forall|k: int| 0 <= k < i ==> pieces@[k] is None,
            decreases n - i,
        {
            queue.push_back(i);
            status.push(PieceStatus::Pending);
            attempts.push(0);
            pieces.push(None);
            i = i + 1;
        }
        let r = WorkQueue { info, queue, status, attempts, pieces, max_attempts };
        assert forall|j: usize| j < r.n() implies ((#[trigger] r.status@[j as int] is Pending)
            <==> r.queue@.contains(j)) by {
            assert(r.queue@[j as int] == j);
        }
        r
    }

    /// Hands the piece at the front of the queue to `worker`.
    pub fn claim(&mut self, worker: usize) -> (r: Option<usize>)
        requires
            old(self).wf(),
        ensures
            final(self).wf(),
            final(self).info == old(self).info,
            old(self).queue@.len() == 0 ==> r is None && final(self).queue@ == old(self).queue@
                && final(self).status@ == old(self).status@,
            old(self).queue@.len() > 0 ==> r == Some(old(self).queue@[0]),
            r matches Some(i) ==> {
                &&& old(self).status@[i as int] is Pending
                &&& final(self).status@ == old(self).status@.update(
                    i as int,
                    PieceStatus::InFlight(worker),
                )
                &&& final(self).queue@ == old(self).queue@.subrange(1, old(self).queue@.len() as int)
                &&& final(self).attempts@ == old(self).attempts@
                &&& final(self).pieces@ == old(self).pieces@
            },
    {
        match self.queue.pop_front() {
            None => None,
            Some(i) => {
                proof {
                    assert(old(self).queue@.contains(i));
                    assert forall|k: int| 0 <= k < self.queue@.len() implies self.queue@[k] != i by {
                        assert(self.queue@[k] == old(self).queue@[k + 1]);
                    }
                }
                self.status.set(i, PieceStatus::InFlight(worker));
                proof {
                    assert forall|j: usize| j < self.n() implies ((
                    #[trigger] self.status@[j as int] is Pending) <==> self.queue@.contains(j)) by {
                        if j != i {
                            if old(self).queue@.contains(j) {
                                let k = choose|k: int|
                                    0 <= k < old(self).queue@.len() && old(self).queue@[k] == j;
                                assert(self.queue@[k - 1] == j);
                            }
                            if self.queue@.contains(j) {
                                let k = choose|k: int|
                                    0 <= k < self.queue@.len() && self.queue@[k] == j;
                                assert(old(self).queue@[k + 1] == j);
                            }
                        }
                    }
                    assert forall|a: int, b: int|
                        0 <= a < b < self.queue@.len() implies #[trigger] self.queue@[a]
                        != #[trigger] self.queue@[b] by {
                        assert(self.queue@[a] == old(self).queue@[a + 1]);
                        assert(self.queue@[b] == old(self).queue@[b + 1]);
                    }
                    assert forall|k: int| 0 <= k < self.queue@.len() implies #[trigger] self.queue@[k]
                        < self.n() by {
                        assert(self.queue@[k] == old(self).queue@[k + 1]);
                    }
                }
                Some(i)
            },
        }
    }

    /// Records a failed attempt at piece `index`: back to the tail of the queue, or, once the retry
    /// cap is reached, given up.
    pub fn fail(&mut self, index: usize) -> (r: Result<(), SchedulerError>)
        requires
            old(self).wf(),
            index < old(self).n(),
            old(self).status@[index as int] is InFlight,
        ensures
            final(self).wf(),
            final(self).info == old(self).info,
            final(self).max_attempts == old(self).max_attempts,
            final(self).pieces@ == old(self).pieces@,
            ({
                let a = old(self).attempts@[index as int] + 1;
                &&& final(self).attempts@ == old(self).attempts@.update(index as int, a as u32)
                &&& a >= old(self).max_attempts ==> {
                    &&& r == Err::<(), SchedulerError>(SchedulerError::PieceExhausted(index))
                    &&& final(self).status@ == old(self).status@.update(
                        index as int,
                        PieceStatus::Failed(a as u32),
                    )
                    &&& final(self).queue@ == old(self).queue@
                }
                &&& a < old(self).max_attempts ==> {
                    &&& r is Ok
                    &&& final(self).status@ == old(self).status@.update(
                        index as int,
                        PieceStatus::Pending,
                    )
                    &&& final(self).queue@ == old(self).queue@.push(index)
                }
            }),
    {
        let a = self.attempts[index] + 1;
        self.attempts.set(index, a);
        if a >= self.max_attempts {
            self.status.set(index, PieceStatus::Failed(a));
            proof {
                assert forall|j: usize| j < self.n() implies ((
                #[trigger] self.status@[j as int] is Pending) <==> self.queue@.contains(j)) by {
                    if j != index {
                        assert(self.status@[j as int] == old(self).status@[j as int]);
                    }
                }
            }
            return Err(SchedulerError::PieceExhausted(index));
        }
        proof {
            assert(!old(self).queue@.contains(index));
        }
        self.queue.push_back(index);
        self.status.set(index, PieceStatus::Pending);
        proof {
            let q = self.queue@;
            let oq = old(self).queue@;
            assert(q[oq.len() as int] == index);
            assert forall|k: int| 0 <= k < oq.len() implies q[k] != index by {
                assert(q[k] == oq[k]);
                if q[k] == index {
                    assert(oq.contains(index));
                }
            }
            assert forall|a: int, b: int|
                0 <= a < b < q.len() implies #[trigger] q[a] != #[trigger] q[b] by {
                if b == oq.len() {
                    assert(q[a] == oq[a]);
                } else {
                    assert(q[a] == oq[a] && q[b] == oq[b]);
                }
            }
            assert forall|k: int| 0 <= k < q.len() implies #[trigger] q[k] < self.n() by {
                if k < oq.len() {
                    assert(q[k] == oq[k]);
                }
            }
            assert forall|j: usize| j < self.n() implies ((
            #[trigger] self.status@[j as int] is Pending) <==> q.contains(j)) by {
                if j == index {
                    assert(q[oq.len() as int] == j);
                } else {
                    assert(self.status@[j as int] == old(self).status@[j as int]);
                    if oq.contains(j) {
                        let k = choose|k: int| 0 <= k < oq.len() && oq[k] == j;
                        assert(q[k] == j);
                    }
                    if q.contains(j) {
                        let k = choose|k: int| 0 <= k < q.len() && q[k] == j;
                        assert(k < oq.len());
                        assert(oq[k] == j);
                    }
                }
            }
        }
        Ok(())
    }

    /// Takes the bytes that `worker` fetched for piece `index`. Verified bytes finish the piece
    /// (`Ok(true)`); others count as a failed attempt (`Ok(false)`, or the error once the retry
    /// cap is reached).
    pub fn complete(&mut self, index: usize, worker: usize, data: Vec<u8>) -> (r: Result<
        bool,
        SchedulerError,
    >)
        requires
            old(self).wf(),
            index < old(self).n(),
            old(self).status@[index as int] == PieceStatus::InFlight(worker),
        ensures
            final(self).wf(),
            final(self).info == old(self).info,
            piece_verified(old(self).info, index as int, data@) ==> {
                &&& r == Ok::<bool, SchedulerError>(true)
                &&& final(self).status@ == old(self).status@.update(index as int, PieceStatus::Done)
                &&& final(self).pieces@[index as int] matches Some(d) && d@ == data@
                &&& final(self).queue@ == old(self).queue@
            },
            !piece_verified(old(self).info, index as int, data@) ==> {
                let a = old(self).attempts@[index as int] + 1;
                &&& final(self).pieces@ == old(self).pieces@
                &&& a >= old(self).max_attempts ==> r == Err::<bool, SchedulerError>(
                    SchedulerError::PieceExhausted(index),
                )
                &&& a < old(self).max_attempts ==> {
                    &&& r == Ok::<bool, SchedulerError>(false)
                    &&& final(self).status@ == old(self).status@.update(
                        index as int,
                        PieceStatus::Pending,
                    )
                    &&& final(self).queue@ == old(self).queue@.push(index)
                }
            },
    {
        let size = self.info.piece_size(index);
        let expected = self.info.piece_hash(index);
        if data.len() == size as usize && matches_digest(data.as_slice(), &expected) {
            self.status.set(index, PieceStatus::Done);
            self.pieces.set(index, Some(data));
            proof {
                assert forall|j: usize| j < self.n() implies ((
                #[trigger] self.status@[j as int] is Pending) <==> self.queue@.contains(j)) by {
                    if j != index {
                        assert(self.status@[j as int] == old(self).status@[j as int]);
                    } else {
                        assert(!old(self).queue@.contains(j));
                    }
                }
                assert forall|i: int| 0 <= i < self.n() implies (#[trigger] self.pieces@[i] matches Some(
                    d,
                ) ==> piece_verified(self.info, i, d@)) by {
                    if i != index {
                        assert(self.pieces@[i] == old(self).pieces@[i]);
                    }
                }
            }
            return Ok(true);
        }
        match self.fail(index) {
            Ok(()) => Ok(false),
            Err(e) => Err(e),
        }
    }

    /// Whether every piece is done.
    pub fn is_complete(&self) -> (r: bool)
        requires
            self.wf(),
        ensures
            r == forall|i: int| 0 <= i < self.n() ==> #[trigger] self.status@[i] == PieceStatus::Done,
    {
        let n = self.status.len();
        let mut i: usize = 0;
        while i < n
            invariant
                i <= n,
                self.wf(),
                n == self.status@.len(),
                forall|k: int| 0 <= k < i ==> #[trigger] self.status@[k] == PieceStatus::Done,
            decreases n - i,
        {
            if self.status[i] != PieceStatus::Done {
                assert(self.status@[i as int] != PieceStatus::Done);
                return false;
            }
            i = i + 1;
        }
        true
    }

    /// The payload: every piece's bytes at its offset, in index order.
    pub fn assemble(&self) -> (r: Vec<u8>)
        requires
            self.wf(),
            forall|i: int| 0 <= i < self.n() ==> #[trigger] self.status@[i] == PieceStatus::Done,
        ensures
            r@.len() == self.info.length,
            forall|i: int|
                0 <= i < self.n() ==> (#[trigger] self.pieces@[i]) is Some && r@.subrange(
                    i * self.info.piece_length,
                    i * self.info.piece_length + self.info.spec_piece_size(i),
                ) == self.pieces@[i]->Some_0@,
    {
        let n = self.pieces.len();
        let ghost pl = self.info.piece_length as int;
        let mut out: Vec<u8> = Vec::new();
        let mut i: usize = 0;
        proof {
            let li = self.info.length as int;
            assert(n >= 1) by (nonlinear_arith)
                requires
                    n == (li + pl - 1) / pl,
                    li > 0,
                    pl > 0,
            ;
        }
        while i < n
            invariant
                self.wf(),
                forall|k: int| 0 <= k < self.n() ==> #[trigger] self.status@[k] == PieceStatus::Done,
                i <= n,
                n == self.n(),
                pl == self.info.piece_length,
                i < n ==> out@.len() == i * pl,
                i == n ==> out@.len() == self.info.length,
                forall|k: int|
                    0 <= k < i ==> (#[trigger] self.pieces@[k]) is Some && out@.subrange(
                        k * pl,
                        k * pl + self.info.spec_piece_size(k),
                    ) == self.pieces@[k]->Some_0@,
            decreases n - i,
        {
            assert(self.status@[i as int] == PieceStatus::Done);
            let piece = match &self.pieces[i] {
                Some(d) => d,
                None => {
                    return out;
                },
            };
            let ghost before = out@;
            let size = self.info.piece_size(i);
            let off = self.info.piece_offset(i);
            crate::endian::push_all(&mut out, piece.as_slice());
            proof {
                assert(piece@.len() == self.info.spec_piece_size(i as int));
                assert(out@.subrange(i * pl, i * pl + self.info.spec_piece_size(i as int))
                    =~= piece@);
                assert forall|k: int|
                    0 <= k < i + 1 implies (#[trigger] self.pieces@[k]) is Some
                    && out@.subrange(k * pl, k * pl + self.info.spec_piece_size(k))
                    == self.pieces@[k]->Some_0@ by {
                    if k < i {
                        let d = self.pieces@[k]->0;
                        assert(k * pl + self.info.spec_piece_size(k) <= i * pl) by (nonlinear_arith)
                            requires
                                0 <= k < i,
                                pl > 0,
                                self.info.spec_piece_size(k) == pl,
                        ;
                        assert(out@.subrange(k * pl, k * pl + self.info.spec_piece_size(k))
                            =~= before.subrange(k * pl, k * pl + self.info.spec_piece_size(k)));
                    }
                }
                if i + 1 < n {
                    assert((i + 1) * pl == i * pl + pl) by (nonlinear_arith);
                }
            }
            i = i + 1;
        }
        out
    }
}

/// Which peer a worker uses: worker `w` starts at peer `w mod count` and moves to the next peer,
/// round-robin, each time a session fails; it gives up once every peer has failed in a row.
pub struct PeerCursor {
    pub current: usize,
    pub failures: usize,
    pub count: usize,
}

impl PeerCursor {
    pub open spec fn wf(&self) -> bool {
        &&& self.count > 0
        &&& self.current < self.count
        &&& self.failures <= self.count
    }

    pub fn new(worker: usize, count: usize) -> (r: PeerCursor)
        requires
            count > 0,
        ensures
            r.wf(),
            r.current == worker % count,
            r.failures == 0,
            r.count == count,
    {
        PeerCursor { current: worker % count, failures: 0, count }
    }

    /// Whether some peer is still worth trying.
    pub fn active(&self) -> (r: bool)
        requires
            self.wf(),
        ensures
            r == (self.failures < self.count),
    {
        self.failures < self.count
    }

    /// The session with the current peer failed: move to the next peer.
    pub fn on_failure(&mut self)
        requires
            old(self).wf(),
            old(self).failures < old(self).count,
        ensures
            final(self).wf(),
            final(self).count == old(self).count,
            final(self).failures == old(self).failures + 1,
            final(self).current == (old(self).current + 1) % (old(self).count as int),
    {
        let ghost c = self.current as int;
        let ghost n = self.count as int;
        proof {
            if c + 1 == n {
                assert((c + 1) % n == 0) by (nonlinear_arith)
                    requires
                        c + 1 == n,
                        n > 0,
                ;
            } else {
                assert((c + 1) % n == c + 1) by (nonlinear_arith)
                    requires
                        0 <= c,
                        c + 1 < n,
                ;
            }
        }
        self.failures = self.failures + 1;
        self.current = if self.current + 1 == self.count {
            0
        } else {
            self.current + 1
        };
    }

    /// The current peer served a piece: failures no longer run in a row.
    pub fn on_success(&mut self)
        requires
            old(self).wf(),
        ensures
            final(self).wf(),
            final(self).count == old(self).count,
            final(self).current == old(self).current,
            final(self).failures == 0,
    {
        self.failures = 0;
    }
}

/// Claims go to pending pieces only: a piece held by a worker is not in the queue, so no second
/// worker can claim it before it is released.
pub proof fn lemma_in_flight_not_queued(q: WorkQueue, i: usize)
    requires
        q.wf(),
        i < q.n(),
        q.status@[i as int] is InFlight,
    ensures
        !q.queue@.contains(i),
{
}

/// A finished download holds, for every piece, bytes whose SHA-1 is that piece's expected hash.
pub proof fn lemma_done_pieces_verified(q: WorkQueue)
    requires
        q.wf(),
        forall|i: int| 0 <= i < q.n() ==> #[trigger] q.status@[i] == PieceStatus::Done,
    ensures
        forall|i: int|
            0 <= i < q.n() ==> (#[trigger] q.pieces@[i]) is Some && sha1_of(q.pieces@[i]->Some_0@)
                == q.info.spec_piece_hash(i),
{
    assert forall|i: int| 0 <= i < q.n() implies (#[trigger] q.pieces@[i]) is Some && sha1_of(
        q.pieces@[i]->Some_0@,
    ) == q.info.spec_piece_hash(i) by {
        assert(q.status@[i] is Done);
    }
}

} // verus!
