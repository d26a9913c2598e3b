//! One peer's download machinery: the throttled request pipeline and the
//! piece reassembler, driven by the frames the connection yields.
//!
//! The broker decides; the caller moves bytes.  `request_piece` hands back
//! the block requests that may go out at once, `on_message` hands back the
//! waiting request a freed slot promotes and any piece that finished.

use vstd::prelude::*;

use crate::error::BitTorrentError;
use crate::message::{msg_key, MessageView, PeerMessage};
use crate::piece::{deliver_effect, open_effect, Piece, PieceManager};
use crate::throttle::{done_effect, KeyHash, ThrottleQueue};

verus! {

/// The fixed transfer unit: blocks of sixteen kibibytes.
pub const BLOCK_SIZE: usize = 16384;

/// How many block requests one session keeps in flight at most.
pub const THROTTLE_CAPACITY: usize = 5;

/// How many block requests a piece of this length takes.
pub open spec fn num_blocks(piece_length: u32) -> int {
    (piece_length + BLOCK_SIZE - 1) / (BLOCK_SIZE as int)
}

/// The length of the block starting at `16384 * i`: a full block, or what
/// remains of the piece.
pub open spec fn block_len_at(piece_length: u32, i: int) -> u32 {
    if piece_length - i * BLOCK_SIZE >= BLOCK_SIZE {
        BLOCK_SIZE as u32
    } else {
        (piece_length - i * BLOCK_SIZE) as u32
    }
}

/// The block requests a piece is fetched with: offsets `0, 16384, ...`,
/// each a full block except the last, which takes the remainder.
pub open spec fn piece_requests(index: u32, piece_length: u32) -> Seq<MessageView> {
    Seq::new(
        num_blocks(piece_length) as nat,
        |i: int|
            MessageView::Request {
                index,
                begin: (i * BLOCK_SIZE) as u32,
                length: block_len_at(piece_length, i),
            },
    )
}

/// All blocks but the last are full, and the last ends exactly at the
/// piece length.
pub proof fn lemma_block_layout(piece_length: u32)
    requires
        piece_length > 0,
    ensures
        num_blocks(piece_length) >= 1,
        forall|i: int|
            0 <= i < num_blocks(piece_length) - 1 ==> block_len_at(piece_length, i)
                == BLOCK_SIZE as u32,
        block_len_at(piece_length, num_blocks(piece_length) - 1) == piece_length - (num_blocks(
            piece_length,
        ) - 1) * BLOCK_SIZE,
        (num_blocks(piece_length) - 1) * BLOCK_SIZE < piece_length,
        piece_length <= num_blocks(piece_length) * BLOCK_SIZE,
{
    let n = num_blocks(piece_length);
    assert((n - 1) * BLOCK_SIZE < piece_length && piece_length <= n * BLOCK_SIZE) by (
    nonlinear_arith)
        requires
            n == (piece_length + BLOCK_SIZE - 1) / (BLOCK_SIZE as int),
            piece_length > 0,
            BLOCK_SIZE == 16384,
    ;
    assert forall|i: int| 0 <= i < n - 1 implies block_len_at(piece_length, i)
        == BLOCK_SIZE as u32 by {
        assert((i + 1) * BLOCK_SIZE <= (n - 1) * BLOCK_SIZE) by (nonlinear_arith)
            requires
                0 <= i < n - 1,
                BLOCK_SIZE == 16384,
        ;
        assert(piece_length - i * BLOCK_SIZE >= BLOCK_SIZE);
    }
}

/// A piece of sixteen kibibytes or less is fetched with exactly one
/// request for the whole piece.
pub proof fn lemma_single_block(index: u32, piece_length: u32)
    requires
        0 < piece_length <= BLOCK_SIZE,
    ensures
        piece_requests(index, piece_length) =~= seq![
            MessageView::Request { index, begin: 0, length: piece_length },
        ],
{
    lemma_block_layout(piece_length);
}

/// The in-flight keys after marking a run of messages in order: each
/// message's key joins unless it is already counted.
pub open spec fn push_new_keys(fl: Seq<Seq<u8>>, msgs: Seq<MessageView>) -> Seq<Seq<u8>>
    decreases msgs.len(),
{
    if msgs.len() == 0 {
        fl
    } else {
        let prev = push_new_keys(fl, msgs.drop_last());
        if prev.contains(msg_key(msgs.last())) {
            prev
        } else {
            prev.push(msg_key(msgs.last()))
        }
    }
}

/// What enqueueing a piece's block requests does to the pipeline: the
/// handed-back messages are the leading requests, their keys marked in
/// flight; the rest join the waiting line in order; and anything held
/// back means the pipeline is full.
pub open spec fn request_effect(
    pre: Broker,
    post: Broker,
    index: usize,
    piece_length: usize,
    to_send: Seq<PeerMessage>,
) -> bool {
    let reqs = piece_requests(index as u32, piece_length as u32);
    let sent = to_send.len() as int;
    let w0 = pre.queue_state().waiting();
    let w1 = post.queue_state().waiting();
    &&& sent <= reqs.len()
    &&& to_send.map_values(|m: PeerMessage| m@) == reqs.take(sent)
    &&& post.queue_state().inflight() == push_new_keys(
        pre.queue_state().inflight(),
        reqs.take(sent),
    )
    &&& post.queue_state().cap() == pre.queue_state().cap()
    &&& w1.len() == w0.len() + reqs.len() - sent
    &&& w1.take(w0.len() as int) == w0
    &&& w1.skip(w0.len() as int).map_values(|m: PeerMessage| m@) == reqs.skip(sent)
    &&& (sent == reqs.len() || post.queue_state().inflight().len() == post.queue_state().cap())
}

/// On an idle pipeline, a piece of one block or less is dispatched
/// whole: exactly one request goes out, for the entire piece at offset
/// zero.  Delivering the one matching block then completes the piece,
/// as `lemma_ordered_delivery_completes` has it.
pub proof fn lemma_single_block_dispatch(
    pre: Broker,
    post: Broker,
    index: usize,
    piece_length: usize,
    to_send: Seq<PeerMessage>,
)
    requires
        pre.wf(),
        pre.queue_state().inflight().len() == 0,
        index <= u32::MAX,
        0 < piece_length <= BLOCK_SIZE,
        request_effect(pre, post, index, piece_length, to_send),
    ensures
        to_send.len() == 1,
        to_send[0]@ == (MessageView::Request {
            index: index as u32,
            begin: 0,
            length: piece_length as u32,
        }),
{
    lemma_single_block(index as u32, piece_length as u32);
    let reqs = piece_requests(index as u32, piece_length as u32);
    assert(reqs.len() == 1);
    if to_send.len() == 0 {
        assert(reqs.take(0) =~= Seq::<MessageView>::empty());
        assert(post.queue_state().inflight() == push_new_keys(
            pre.queue_state().inflight(),
            reqs.take(0),
        ));
        assert(post.queue_state().inflight().len() == 0);
        assert(false);
    }
    assert(to_send.len() == 1);
    assert(to_send.map_values(|m: PeerMessage| m@) == reqs.take(1));
    assert(reqs.take(1) =~= reqs);
    assert(to_send.map_values(|m: PeerMessage| m@)[0] == to_send[0]@);
    assert(to_send[0]@ == reqs[0]);
}

/// The request pipeline and the reassembler of one peer session.
pub struct Broker {
    queue: ThrottleQueue<PeerMessage>,
    pieces: PieceManager,
}

impl Broker {
    /// The request pipeline's state, for contracts.
    pub closed spec fn queue_state(&self) -> ThrottleQueue<PeerMessage> {
        self.queue
    }

    /// The reassembler's state, for contracts.
    pub closed spec fn pieces_state(&self) -> PieceManager {
        self.pieces
    }

    /// Both halves well-formed, with the fixed pipeline bound.
    pub open spec fn wf(&self) -> bool {
        &&& self.queue_state().wf()
        &&& self.pieces_state().wf()
        &&& self.queue_state().cap() == THROTTLE_CAPACITY
    }

    /// A fresh broker: empty pipeline, nothing open, nothing completed.
    pub fn new() -> (r: Broker)
        ensures
            r.wf(),
            r.queue_state().inflight() == Seq::<Seq<u8>>::empty(),
            r.queue_state().waiting() == Seq::<PeerMessage>::empty(),
            r.pieces_state().open_views() == Seq::<crate::piece::BlocksView>::empty(),
            r.pieces_state().completed_spec() == Seq::<usize>::empty(),
    {
        Broker { queue: ThrottleQueue::new(THROTTLE_CAPACITY), pieces: PieceManager::new() }
    }

    /// Opens the piece's accumulator and enqueues its block requests in
    /// offset order.  The returned messages are the leading requests the
    /// pipeline could dispatch at once, their keys now in flight; the
    /// rest wait their turn, and whenever one is held back the pipeline
    /// is full.
    pub fn request_piece(&mut self, index: usize, piece_length: usize) -> (to_send: Vec<
        PeerMessage,
    >)
        requires
            old(self).wf(),
            index <= u32::MAX,
            piece_length <= u32::MAX,
        ensures
            final(self).wf(),
            open_effect(
                old(self).pieces_state(),
                final(self).pieces_state(),
                index,
                piece_length,
            ),
            request_effect(*old(self), *final(self), index, piece_length, to_send@),
    {
        self.pieces.new_block(index, piece_length);
        let ghost pieces_after = self.pieces;
        let ghost reqs = piece_requests(index as u32, piece_length as u32);
        let ghost w0 = self.queue.waiting();
        let ghost fl0 = self.queue.inflight();
        let mut to_send: Vec<PeerMessage> = Vec::new();
        let mut offset: usize = 0;
        let ghost mut produced: int = 0;
        proof {
            assert(to_send@.map_values(|m: PeerMessage| m@) =~= reqs.take(0));
            assert(self.queue.waiting().take(w0.len() as int) =~= w0);
            assert(self.queue.waiting().skip(w0.len() as int) =~= Seq::<PeerMessage>::empty());
            assert(self.queue.waiting().skip(w0.len() as int).map_values(|m: PeerMessage| m@)
                =~= reqs.take(0).skip(0));
            if piece_length == 0 {
                assert(reqs.len() == 0);
            } else {
                lemma_block_layout(piece_length as u32);
            }
            assert(reqs.take(0) =~= Seq::<MessageView>::empty());
            assert(push_new_keys(fl0, reqs.take(0)) == fl0);
        }
        while offset < piece_length
            invariant
                self.queue.wf(),
                self.queue.cap() == THROTTLE_CAPACITY,
                self.pieces == pieces_after,
                index <= u32::MAX,
                piece_length <= u32::MAX,
                reqs == piece_requests(index as u32, piece_length as u32),
                0 <= produced <= reqs.len(),
                produced < reqs.len() ==> offset == produced * BLOCK_SIZE,
                produced == reqs.len() ==> offset >= piece_length,
                to_send@.len() <= produced,
                to_send@.map_values(|m: PeerMessage| m@) == reqs.take(to_send@.len() as int),
                self.queue.waiting().len() == w0.len() + produced - to_send@.len(),
                self.queue.waiting().take(w0.len() as int) == w0,
                self.queue.waiting().skip(w0.len() as int).map_values(|m: PeerMessage| m@)
                    == reqs.take(produced).skip(to_send@.len() as int),
                self.queue.inflight() == push_new_keys(fl0, reqs.take(to_send@.len() as int)),
                to_send@.len() == produced || self.queue.inflight().len() == self.queue.cap(),
            decreases piece_length - offset,
        {
            proof {
                if produced >= reqs.len() {
                    assert(offset >= piece_length);
                    assert(false);
                }
                lemma_block_layout(piece_length as u32);
                if produced < reqs.len() - 1 {
                    assert(block_len_at(piece_length as u32, produced) == BLOCK_SIZE as u32);
                    assert((produced + 1) * BLOCK_SIZE == produced * BLOCK_SIZE + BLOCK_SIZE);
                    assert((produced + 1) * BLOCK_SIZE < piece_length) by (nonlinear_arith)
                        requires
                            produced + 1 < (piece_length + BLOCK_SIZE - 1) / (BLOCK_SIZE as int),
                            BLOCK_SIZE == 16384,
                            piece_length <= u32::MAX,
                    ;
                } else {
                    assert(produced == reqs.len() - 1);
                }
            }
            let remaining = piece_length - offset;
            let block_size: usize = if remaining < BLOCK_SIZE {
                remaining
            } else {
                BLOCK_SIZE
            };
            let msg = PeerMessage::Request {
                index: index as u32,
                begin: offset as u32,
                length: block_size as u32,
            };
            proof {
                assert(reqs[produced] == MessageView::Request {
                    index: index as u32,
                    begin: (produced * BLOCK_SIZE) as u32,
                    length: block_len_at(piece_length as u32, produced),
                });
                if produced == reqs.len() - 1 {
                    assert(piece_length - produced * BLOCK_SIZE <= BLOCK_SIZE || piece_length
                        - produced * BLOCK_SIZE >= BLOCK_SIZE);
                }
                assert(msg@ == reqs[produced]);
            }
            let ghost pre_q = self.queue;
            let ghost pre_out = to_send@;
            let sent = self.queue.queue(msg);
            proof {
                produced = produced + 1;
            }
            match sent {
                Some(m) => {
                    to_send.push(m);
                    proof {
                        assert(pre_q.inflight().len() < pre_q.cap());
                        assert(pre_out.len() == produced - 1);
                        assert(to_send@ =~= pre_out.push(msg));
                        assert(reqs.take(produced).drop_last() =~= reqs.take(produced - 1));
                        assert(reqs.take(produced).last() == reqs[produced - 1]);
                        assert(crate::throttle::KeyHash::key_spec(&msg) == msg_key(
                            reqs[produced - 1],
                        ));
                        assert(self.queue.inflight() == push_new_keys(fl0, reqs.take(produced)));
                        assert(to_send@.map_values(|m2: PeerMessage| m2@) =~= reqs.take(
                            produced,
                        ));
                        assert(self.queue.waiting() == pre_q.waiting());
                        assert(reqs.take(produced).skip(produced) =~= Seq::<MessageView>::empty());
                        assert(self.queue.waiting().skip(w0.len() as int).map_values(
                            |m2: PeerMessage| m2@,
                        ) =~= reqs.take(produced).skip(to_send@.len() as int));
                    }
                },
                None => {
                    proof {
                        assert(pre_q.inflight().len() >= pre_q.cap());
                        assert(self.queue.waiting() =~= pre_q.waiting().push(msg));
                        assert(self.queue.waiting().take(w0.len() as int) =~= w0);
                        assert(self.queue.waiting().skip(w0.len() as int) =~= pre_q.waiting().skip(
                            w0.len() as int,
                        ).push(msg));
                        assert(self.queue.waiting().skip(w0.len() as int).map_values(
                            |m2: PeerMessage| m2@,
                        ) =~= pre_q.waiting().skip(w0.len() as int).map_values(
                            |m2: PeerMessage| m2@,
                        ).push(msg@));
                        assert(reqs.take(produced).skip(to_send@.len() as int) =~= reqs.take(
                            produced - 1,
                        ).skip(to_send@.len() as int).push(reqs[produced - 1]));
                    }
                },
            }
            offset = offset + block_size;
            proof {
                if produced < reqs.len() {
                    assert(offset == produced * BLOCK_SIZE);
                } else {
                    assert(offset >= piece_length);
                }
            }
        }
        proof {
            assert(produced == reqs.len());
            assert(reqs.take(produced) =~= reqs);
            assert(reqs.take(produced).skip(to_send@.len() as int) == reqs.skip(
                to_send@.len() as int,
            ));
        }
        to_send
    }

    /// Takes one inbound message.  Its key frees a pipeline slot, which
    /// may promote a waiting request: send that one next.  A `Piece`
    /// message's block goes to the reassembler, which may emit the
    /// finished piece.  Any other message changes nothing else.
    pub fn on_message(&mut self, msg: &PeerMessage) -> (r: Result<
        (Option<PeerMessage>, Option<Piece>),
        BitTorrentError,
    >)
        requires
            old(self).wf(),
        ensures
            final(self).wf(),
            match r {
                Ok((promoted, _)) => done_effect(
                    old(self).queue_state(),
                    final(self).queue_state(),
                    msg_key(msg@),
                    promoted,
                ),
                Err(_) => exists|p: Option<PeerMessage>|
                    done_effect(
                        old(self).queue_state(),
                        final(self).queue_state(),
                        msg_key(msg@),
                        p,
                    ),
            },
            match msg@ {
                MessageView::Piece { index, begin, block } => match r {
                    Ok((_, completed)) => deliver_effect(
                        old(self).pieces_state(),
                        final(self).pieces_state(),
                        index as usize,
                        begin as usize,
                        block,
                        Ok(completed),
                    ),
                    Err(e) => deliver_effect(
                        old(self).pieces_state(),
                        final(self).pieces_state(),
                        index as usize,
                        begin as usize,
                        block,
                        Err(e),
                    ),
                },
                _ => r is Ok && final(self).pieces_state() == old(self).pieces_state(),
            },
    {
        let key = msg.key_hash();
        let promoted = self.queue.done(key);
        proof {
            assert(done_effect(
                old(self).queue_state(),
                self.queue_state(),
                msg_key(msg@),
                promoted,
            ));
        }
        match msg {
            PeerMessage::Piece { index, begin, block } => {
                let data = crate::message::clone_bytes(block);
                match self.pieces.insert_block(*index as usize, *begin as usize, data) {
                    Ok(completed) => Ok((promoted, completed)),
                    Err(e) => Err(e),
                }
            },
            _ => Ok((promoted, None)),
        }
    }
}

} // verus!
