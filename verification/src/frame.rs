//! The stateful frame reader: incremental byte chunks in, whole frame
//! payloads out.
//!
//! A length prefix is consumed only once its whole frame is present, and no
//! byte is ever dropped: everything fed is either part of an emitted
//! payload, spent as a length prefix of one, or still buffered.

use vstd::prelude::*;

use crate::error::BitTorrentError;
use crate::extension::{parse_ext, Extension, ExtensionView};
use crate::message::{parse_payload, PeerMessage, MessageView};
use crate::wire::{spec_u32_from_be, u32_at};

verus! {

/// Anything one frame can carry: a keepalive, a standard peer message,
/// or an extension-protocol frame.
#[derive(Debug, PartialEq)]
pub enum Message {
    KeepAlive,
    Peer(PeerMessage),
    Extension(Extension),
}

/// The mathematical shape of a decoded frame.
#[verifier::ext_equal]
pub enum FrameView {
    KeepAlive,
    Peer(MessageView),
    Extension(ExtensionView),
}

impl View for Message {
    type V = FrameView;

    open spec fn view(&self) -> FrameView {
        match self {
            Message::KeepAlive => FrameView::KeepAlive,
            Message::Peer(m) => FrameView::Peer(m@),
            Message::Extension(e) => FrameView::Extension(e@),
        }
    }
}

/// What a frame payload decodes to: nothing for a keepalive, a peer
/// message for IDs zero through eight, an extension frame for ID 20.
pub open spec fn parse_frame_payload(b: Seq<u8>) -> Result<FrameView, BitTorrentError> {
    if b.len() == 0 {
        Ok(FrameView::KeepAlive)
    } else if b[0] <= 8 {
        match parse_payload(b) {
            Ok(m) => Ok(FrameView::Peer(m)),
            Err(e) => Err(e),
        }
    } else if b[0] == 20 {
        match parse_ext(b) {
            Ok(e) => Ok(FrameView::Extension(e)),
            Err(e) => Err(e),
        }
    } else {
        Err(BitTorrentError::UnknownMessage)
    }
}

impl Message {
    /// Decodes one frame payload, exactly as `parse_frame_payload` reads
    /// it.
    pub fn from_frame(bytes: &[u8]) -> (r: Result<Message, BitTorrentError>)
        ensures
            match r {
                Ok(m) => parse_frame_payload(bytes@) == Ok::<FrameView, BitTorrentError>(m@),
                Err(e) => parse_frame_payload(bytes@) == Err::<FrameView, BitTorrentError>(e),
            },
    {
        if bytes.len() == 0 {
            return Ok(Message::KeepAlive);
        }
        let id = bytes[0];
        if id <= 8 {
            match PeerMessage::from_payload(bytes) {
                Ok(m) => Ok(Message::Peer(m)),
                Err(e) => Err(e),
            }
        } else if id == 20 {
            match Extension::from_bytes(bytes) {
                Ok(e) => Ok(Message::Extension(e)),
                Err(e) => Err(e),
            }
        } else {
            Err(BitTorrentError::UnknownMessage)
        }
    }

    /// The peer message inside, if this frame carries one.
    pub fn as_peer_message(&self) -> (r: Option<&PeerMessage>)
        ensures
            match r {
                Some(m) => self@ == FrameView::Peer(m@),
                None => !(self@ is Peer),
            },
    {
        match self {
            Message::Peer(m) => Some(m),
            _ => None,
        }
    }

    /// Whether this frame carries an extension message.
    pub fn is_extension(&self) -> (r: bool)
        ensures
            r == (self@ is Extension),
    {
        matches!(self, Message::Extension(_))
    }
}

/// The payload length the first four buffered bytes announce.
pub open spec fn frame_len(b: Seq<u8>) -> u32
    recommends
        b.len() >= 4,
{
    spec_u32_from_be(b.subrange(0, 4))
}

/// Whether the buffer starts with one complete frame.
pub open spec fn has_frame(b: Seq<u8>) -> bool {
    b.len() >= 4 && b.len() >= 4 + frame_len(b)
}

/// Greedily splits a buffer into the payloads of its leading complete
/// frames and the unconsumed tail.
pub open spec fn frames_of(b: Seq<u8>) -> (Seq<Seq<u8>>, Seq<u8>)
    decreases b.len(),
{
    if has_frame(b) {
        let n = frame_len(b) as int;
        let rest = frames_of(b.skip(4 + n));
        (seq![b.subrange(4, 4 + n)] + rest.0, rest.1)
    } else {
        (Seq::empty(), b)
    }
}

/// Reads length-prefixed frames out of an incrementally fed byte stream.
pub struct MessageDecoder {
    buf: Vec<u8>,
}

impl MessageDecoder {
    /// What remains buffered: bytes of frames not yet complete.
    pub closed spec fn pending(&self) -> Seq<u8> {
        self.buf@
    }

    /// The buffer never holds a complete frame between calls.
    pub closed spec fn wf(&self) -> bool {
        !has_frame(self.buf@)
    }

    /// A fresh reader with nothing buffered.
    pub fn new() -> (r: MessageDecoder)
        ensures
            r.wf(),
            r.pending() == Seq::<u8>::empty(),
    {
        let r = MessageDecoder { buf: Vec::new() };
        assert(!has_frame(r.buf@));
        r
    }

    /// Feeds one chunk and returns the payloads of every frame that is now
    /// complete, in stream order.  The new pending tail is exactly what
    /// `frames_of` leaves of the old tail plus the chunk.
    pub fn feed(&mut self, chunk: &[u8]) -> (out: Vec<Vec<u8>>)
        requires
            old(self).wf(),
            old(self).pending().len() + chunk@.len() <= usize::MAX,
        ensures
            final(self).wf(),
            out.deep_view() == frames_of(old(self).pending() + chunk@).0,
            final(self).pending() == frames_of(old(self).pending() + chunk@).1,
    {
        let ghost whole: Seq<u8> = self.buf@ + chunk@;
        let mut i: usize = 0;
        while i < chunk.len()
            invariant
                0 <= i <= chunk@.len(),
                self.buf@ == old(self).pending() + chunk@.subrange(0, i as int),
                old(self).pending().len() + chunk@.len() <= usize::MAX,
            decreases chunk@.len() - i,
        {
            self.buf.push(chunk[i]);
            i = i + 1;
        }
        assert(self.buf@ =~= whole);

        let mut out: Vec<Vec<u8>> = Vec::new();
        loop
            invariant
                frames_of(whole).0 =~~= out.deep_view() + frames_of(self.buf@).0,
                frames_of(whole).1 == frames_of(self.buf@).1,
            ensures
                !has_frame(self.buf@),
                frames_of(whole).0 =~~= out.deep_view() + frames_of(self.buf@).0,
                frames_of(whole).1 == frames_of(self.buf@).1,
            decreases self.buf@.len(),
        {
            if self.buf.len() < 4 {
                assert(!has_frame(self.buf@));
                break ;
            }
            let n = u32_at(self.buf.as_slice(), 0);
            if (self.buf.len() as u64) < 4u64 + (n as u64) {
                assert(!has_frame(self.buf@));
                break ;
            }
            assert(has_frame(self.buf@));
            let end: usize = 4 + (n as usize);
            let payload = vstd::slice::slice_to_vec(
                vstd::slice::slice_subrange(self.buf.as_slice(), 4, end),
            );
            let tail = vstd::slice::slice_to_vec(
                vstd::slice::slice_subrange(self.buf.as_slice(), end, self.buf.len()),
            );
            let ghost prev: Seq<u8> = self.buf@;
            let ghost prev_out: Seq<Seq<u8>> = out.deep_view();
            out.push(payload);
            self.buf = tail;
            proof {
                assert(self.buf@ =~= prev.skip(4 + n as int));
                assert(out.deep_view() =~~= prev_out.push(prev.subrange(4, 4 + n as int)));
                assert(frames_of(prev).0 =~~= seq![prev.subrange(4, 4 + n as int)] + frames_of(
                    self.buf@,
                ).0);
                assert(prev_out + frames_of(prev).0 =~~= out.deep_view() + frames_of(self.buf@).0);
            }
        }
        out
    }
}

/// A one-message read buffer: bytes pile up until the first frame is
/// whole, then the message can be built.  Nothing is consumed; the
/// caller starts a fresh buffer for each message it wants.
#[derive(Debug, PartialEq)]
pub struct MessageBuf {
    buf: Vec<u8>,
}

impl View for MessageBuf {
    type V = Seq<u8>;

    closed spec fn view(&self) -> Seq<u8> {
        self.buf@
    }
}

impl MessageBuf {
    /// An empty buffer.
    pub fn new() -> (r: MessageBuf)
        ensures
            r@ == Seq::<u8>::empty(),
    {
        let r = MessageBuf { buf: Vec::new() };
        assert(r@ =~= Seq::<u8>::empty());
        r
    }

    /// Appends one chunk.
    pub fn write(&mut self, data: &[u8])
        requires
            old(self)@.len() + data@.len() <= usize::MAX,
        ensures
            final(self)@ == old(self)@ + data@,
    {
        let mut chunk = vstd::slice::slice_to_vec(data);
        self.buf.append(&mut chunk);
    }

    /// Once the first frame is whole, the peer message its payload
    /// spells; nothing while bytes are still missing.
    pub fn build_if_ready(&self) -> (r: Option<Result<PeerMessage, BitTorrentError>>)
        ensures
            r is Some <==> has_frame(self@),
            match r {
                Some(Ok(m)) => parse_payload(self@.subrange(4, 4 + frame_len(self@) as int))
                    == Ok::<MessageView, BitTorrentError>(m@),
                Some(Err(e)) => parse_payload(self@.subrange(4, 4 + frame_len(self@) as int))
                    == Err::<MessageView, BitTorrentError>(e),
                None => true,
            },
    {
        if self.buf.len() < 4 {
            return None;
        }
        let n = u32_at(self.buf.as_slice(), 0);
        if (self.buf.len() as u64) < 4u64 + (n as u64) {
            return None;
        }
        assert(has_frame(self@));
        let payload = vstd::slice::slice_subrange(
            self.buf.as_slice(),
            4,
            4 + (n as usize),
        );
        Some(PeerMessage::from_payload(payload))
    }
}

/// What remains after draining never holds a complete frame.
proof fn lemma_frames_rest_incomplete(b: Seq<u8>)
    ensures
        !has_frame(frames_of(b).1),
    decreases b.len(),
{
    if has_frame(b) {
        lemma_frames_rest_incomplete(b.skip(4 + frame_len(b) as int));
    }
}

/// The frames that come out of feeding a run of chunks one by one, and
/// the bytes left pending at the end.
pub open spec fn feed_frames(pending: Seq<u8>, chunks: Seq<Seq<u8>>) -> (Seq<Seq<u8>>, Seq<u8>)
    decreases chunks.len(),
{
    if chunks.len() == 0 {
        (Seq::empty(), pending)
    } else {
        let first = frames_of(pending + chunks[0]);
        let rest = feed_frames(first.1, chunks.drop_first());
        (first.0 + rest.0, rest.1)
    }
}

/// Feeding a stream in any chunks at all yields the same frames, in the
/// same order, as feeding it whole: the reader never cares where the
/// boundaries fall.
pub proof fn lemma_feed_chunks(pending: Seq<u8>, chunks: Seq<Seq<u8>>)
    requires
        !has_frame(pending),
    ensures
        feed_frames(pending, chunks).0 == frames_of(pending + chunks.flatten()).0,
        feed_frames(pending, chunks).1 == frames_of(pending + chunks.flatten()).1,
    decreases chunks.len(),
{
    if chunks.len() == 0 {
        assert(chunks.flatten() =~= Seq::<u8>::empty());
        assert(pending + chunks.flatten() =~= pending);
    } else {
        let c0 = chunks[0];
        let tail = chunks.drop_first();
        assert(chunks.flatten() == c0 + tail.flatten());
        assert(pending + chunks.flatten() =~= (pending + c0) + tail.flatten());
        lemma_frames_split(pending + c0, tail.flatten());
        lemma_frames_rest_incomplete(pending + c0);
        lemma_feed_chunks(frames_of(pending + c0).1, tail);
        assert(feed_frames(pending, chunks).0 =~~= frames_of(pending + chunks.flatten()).0);
    }
}

/// Feeding one byte run is the same as feeding it in two parts: the frames
/// come out identical, and so does the unconsumed tail.  This is the sense
/// in which the reader does not care where chunks are split.
pub proof fn lemma_frames_split(a: Seq<u8>, b: Seq<u8>)
    ensures
        frames_of(a + b).0 == frames_of(a).0 + frames_of(frames_of(a).1 + b).0,
        frames_of(a + b).1 == frames_of(frames_of(a).1 + b).1,
    decreases a.len(),
{
    if has_frame(a) {
        let n = frame_len(a) as int;
        assert((a + b).subrange(0, 4) =~= a.subrange(0, 4));
        assert(has_frame(a + b));
        assert((a + b).subrange(4, 4 + n) =~= a.subrange(4, 4 + n));
        assert((a + b).skip(4 + n) =~= a.skip(4 + n) + b);
        lemma_frames_split(a.skip(4 + n), b);
        assert(frames_of(a).1 == frames_of(a.skip(4 + n)).1);
        assert(frames_of(a + b).0 =~~= frames_of(a).0 + frames_of(frames_of(a).1 + b).0);
    } else {
        assert(frames_of(a).0 =~~= Seq::<Seq<u8>>::empty());
        assert(frames_of(a).1 == a);
        assert(frames_of(a + b).0 =~~= frames_of(a).0 + frames_of(a + b).0);
    }
}

} // verus!
