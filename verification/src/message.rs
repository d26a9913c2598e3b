//! The standard peer-wire messages and their frame bytes.
//!
//! A frame is a big-endian 32-bit length followed by that many payload
//! bytes; the first payload byte is the message ID.  Encoding recomputes
//! every length from the fields; decoding accepts a payload and checks the
//! layout the ID demands.

use vstd::prelude::*;

use crate::error::BitTorrentError;
use crate::wire::{spec_u32_be, spec_u32_from_be, push_u32_be, u32_at};

verus! {

/// A standard peer message, IDs zero through eight.
#[derive(Debug, Clone, PartialEq)]
pub enum PeerMessage {
    Choke,
    Unchoke,
    Interested,
    NotInterested,
    Have(u32),
    Bitfield(Vec<u8>),
    Request { index: u32, begin: u32, length: u32 },
    Piece { index: u32, begin: u32, block: Vec<u8> },
    Cancel { index: u32, begin: u32, length: u32 },
}

/// The mathematical shape of a peer message: byte runs as sequences.
#[verifier::ext_equal]
pub enum MessageView {
    Choke,
    Unchoke,
    Interested,
    NotInterested,
    Have(u32),
    Bitfield(Seq<u8>),
    Request { index: u32, begin: u32, length: u32 },
    Piece { index: u32, begin: u32, block: Seq<u8> },
    Cancel { index: u32, begin: u32, length: u32 },
}

impl View for PeerMessage {
    type V = MessageView;

    open spec fn view(&self) -> MessageView {
        match self {
            PeerMessage::Choke => MessageView::Choke,
            PeerMessage::Unchoke => MessageView::Unchoke,
            PeerMessage::Interested => MessageView::Interested,
            PeerMessage::NotInterested => MessageView::NotInterested,
            PeerMessage::Have(i) => MessageView::Have(*i),
            PeerMessage::Bitfield(b) => MessageView::Bitfield(b@),
            PeerMessage::Request { index, begin, length } => MessageView::Request {
                index: *index,
                begin: *begin,
                length: *length,
            },
            PeerMessage::Piece { index, begin, block } => MessageView::Piece {
                index: *index,
                begin: *begin,
                block: block@,
            },
            PeerMessage::Cancel { index, begin, length } => MessageView::Cancel {
                index: *index,
                begin: *begin,
                length: *length,
            },
        }
    }
}

/// The payload a message is written as: message ID, then the fields.
pub open spec fn payload_of(m: MessageView) -> Seq<u8> {
    match m {
        MessageView::Choke => seq![0u8],
        MessageView::Unchoke => seq![1u8],
        MessageView::Interested => seq![2u8],
        MessageView::NotInterested => seq![3u8],
        MessageView::Have(i) => seq![4u8] + spec_u32_be(i),
        MessageView::Bitfield(b) => seq![5u8] + b,
        MessageView::Request { index, begin, length } => seq![6u8] + spec_u32_be(index)
            + spec_u32_be(begin) + spec_u32_be(length),
        MessageView::Piece { index, begin, block } => seq![7u8] + spec_u32_be(index) + spec_u32_be(
            begin,
        ) + block,
        MessageView::Cancel { index, begin, length } => seq![8u8] + spec_u32_be(index)
            + spec_u32_be(begin) + spec_u32_be(length),
    }
}

/// Whether the message's variable parts leave its payload length
/// representable in the frame's 32-bit prefix.
pub open spec fn wf_message(m: MessageView) -> bool {
    match m {
        MessageView::Bitfield(b) => b.len() + 1 <= u32::MAX,
        MessageView::Piece { block, .. } => block.len() + 9 <= u32::MAX,
        _ => true,
    }
}

/// The whole frame: the payload length as four big-endian bytes, then the
/// payload.
pub open spec fn frame_of(m: MessageView) -> Seq<u8> {
    spec_u32_be(payload_of(m).len() as u32) + payload_of(m)
}

/// What decoding a payload yields: the message its ID and layout spell, or
/// the error that layout earns.
pub open spec fn parse_payload(b: Seq<u8>) -> Result<MessageView, BitTorrentError> {
    if b.len() == 0 {
        Err(BitTorrentError::MalformedFrame)
    } else {
        let p = b.skip(1);
        if b[0] == 0 {
            Ok(MessageView::Choke)
        } else if b[0] == 1 {
            Ok(MessageView::Unchoke)
        } else if b[0] == 2 {
            Ok(MessageView::Interested)
        } else if b[0] == 3 {
            Ok(MessageView::NotInterested)
        } else if b[0] == 4 {
            if p.len() == 4 {
                Ok(MessageView::Have(spec_u32_from_be(p)))
            } else {
                Err(BitTorrentError::MalformedFrame)
            }
        } else if b[0] == 5 {
            Ok(MessageView::Bitfield(p))
        } else if b[0] == 6 {
            if p.len() == 12 {
                Ok(
                    MessageView::Request {
                        index: spec_u32_from_be(p.subrange(0, 4)),
                        begin: spec_u32_from_be(p.subrange(4, 8)),
                        length: spec_u32_from_be(p.subrange(8, 12)),
                    },
                )
            } else {
                Err(BitTorrentError::MalformedFrame)
            }
        } else if b[0] == 7 {
            if p.len() >= 8 {
                Ok(
                    MessageView::Piece {
                        index: spec_u32_from_be(p.subrange(0, 4)),
                        begin: spec_u32_from_be(p.subrange(4, 8)),
                        block: p.skip(8),
                    },
                )
            } else {
                Err(BitTorrentError::MalformedFrame)
            }
        } else if b[0] == 8 {
            if p.len() == 12 {
                Ok(
                    MessageView::Cancel {
                        index: spec_u32_from_be(p.subrange(0, 4)),
                        begin: spec_u32_from_be(p.subrange(4, 8)),
                        length: spec_u32_from_be(p.subrange(8, 12)),
                    },
                )
            } else {
                Err(BitTorrentError::MalformedFrame)
            }
        } else {
            Err(BitTorrentError::UnknownMessage)
        }
    }
}

/// Whether a byte is one of the standard peer message IDs.
pub fn is_peer_message(id: u8) -> (r: bool)
    ensures
        r == (id <= 8),
{
    id <= 8
}

impl PeerMessage {
    /// Whether this is a bitfield message.
    pub fn is_bitfield(&self) -> (r: bool)
        ensures
            r == (self@ is Bitfield),
    {
        matches!(self, PeerMessage::Bitfield(_))
    }

    /// Whether this is an unchoke message.
    pub fn is_unchoke(&self) -> (r: bool)
        ensures
            r == (self@ is Unchoke),
    {
        matches!(self, PeerMessage::Unchoke)
    }

    /// The full frame bytes for this message, lengths recomputed from the
    /// fields.
    pub fn into_bytes(self) -> (r: Vec<u8>)
        requires
            wf_message(self@),
        ensures
            r@ == frame_of(self@),
    {
        let mut bytes: Vec<u8> = Vec::new();
        match self {
            PeerMessage::Choke => {
                push_u32_be(&mut bytes, 1);
                bytes.push(0);
            },
            PeerMessage::Unchoke => {
                push_u32_be(&mut bytes, 1);
                bytes.push(1);
            },
            PeerMessage::Interested => {
                push_u32_be(&mut bytes, 1);
                bytes.push(2);
            },
            PeerMessage::NotInterested => {
                push_u32_be(&mut bytes, 1);
                bytes.push(3);
            },
            PeerMessage::Have(index) => {
                push_u32_be(&mut bytes, 5);
                bytes.push(4);
                push_u32_be(&mut bytes, index);
            },
            PeerMessage::Bitfield(bitfield) => {
                let length: u32 = (bitfield.len() + 1) as u32;
                push_u32_be(&mut bytes, length);
                bytes.push(5);
                let mut rest = bitfield;
                bytes.append(&mut rest);
            },
            PeerMessage::Request { index, begin, length } => {
                push_u32_be(&mut bytes, 13);
                bytes.push(6);
                push_u32_be(&mut bytes, index);
                push_u32_be(&mut bytes, begin);
                push_u32_be(&mut bytes, length);
            },
            PeerMessage::Piece { index, begin, block } => {
                let length: u32 = (block.len() + 9) as u32;
                push_u32_be(&mut bytes, length);
                bytes.push(7);
                push_u32_be(&mut bytes, index);
                push_u32_be(&mut bytes, begin);
                let mut rest = block;
                bytes.append(&mut rest);
            },
            PeerMessage::Cancel { index, begin, length } => {
                push_u32_be(&mut bytes, 13);
                bytes.push(8);
                push_u32_be(&mut bytes, index);
                push_u32_be(&mut bytes, begin);
                push_u32_be(&mut bytes, length);
            },
        }
        assert(bytes@ =~= frame_of(self@));
        bytes
    }

    /// Decodes one frame payload: the leading ID byte and the fields after
    /// it.  Returns exactly what `parse_payload` says of the bytes.
    pub fn from_payload(bytes: &[u8]) -> (r: Result<PeerMessage, BitTorrentError>)
        ensures
            match r {
                Ok(m) => parse_payload(bytes@) == Ok::<MessageView, BitTorrentError>(m@),
                Err(e) => parse_payload(bytes@) == Err::<MessageView, BitTorrentError>(e),
            },
    {
        if bytes.len() == 0 {
            return Err(BitTorrentError::MalformedFrame);
        }
        let id = bytes[0];
        let plen = bytes.len() - 1;
        proof {
            assert(bytes@.skip(1).len() == plen);
        }
        match id {
            0 => Ok(PeerMessage::Choke),
            1 => Ok(PeerMessage::Unchoke),
            2 => Ok(PeerMessage::Interested),
            3 => Ok(PeerMessage::NotInterested),
            4 => {
                if plen != 4 {
                    Err(BitTorrentError::MalformedFrame)
                } else {
                    let index = u32_at(bytes, 1);
                    proof {
                        assert(bytes@.subrange(1, 5) =~= bytes@.skip(1));
                    }
                    Ok(PeerMessage::Have(index))
                }
            },
            5 => {
                let field = vstd::slice::slice_subrange(bytes, 1, bytes.len());
                let v = vstd::slice::slice_to_vec(field);
                proof {
                    assert(bytes@.subrange(1, bytes@.len() as int) =~= bytes@.skip(1));
                }
                Ok(PeerMessage::Bitfield(v))
            },
            6 | 8 => {
                if plen != 12 {
                    Err(BitTorrentError::MalformedFrame)
                } else {
                    let index = u32_at(bytes, 1);
                    let begin = u32_at(bytes, 5);
                    let length = u32_at(bytes, 9);
                    proof {
                        assert(bytes@.subrange(1, 5) =~= bytes@.skip(1).subrange(0, 4));
                        assert(bytes@.subrange(5, 9) =~= bytes@.skip(1).subrange(4, 8));
                        assert(bytes@.subrange(9, 13) =~= bytes@.skip(1).subrange(8, 12));
                    }
                    if id == 6 {
                        Ok(PeerMessage::Request { index, begin, length })
                    } else {
                        Ok(PeerMessage::Cancel { index, begin, length })
                    }
                }
            },
            7 => {
                if plen < 8 {
                    Err(BitTorrentError::MalformedFrame)
                } else {
                    let index = u32_at(bytes, 1);
                    let begin = u32_at(bytes, 5);
                    let tail = vstd::slice::slice_subrange(bytes, 9, bytes.len());
                    let block = vstd::slice::slice_to_vec(tail);
                    proof {
                        assert(bytes@.subrange(1, 5) =~= bytes@.skip(1).subrange(0, 4));
                        assert(bytes@.subrange(5, 9) =~= bytes@.skip(1).subrange(4, 8));
                        assert(bytes@.subrange(9, bytes@.len() as int) =~= bytes@.skip(1).skip(8));
                    }
                    Ok(PeerMessage::Piece { index, begin, block })
                }
            },
            _ => Err(BitTorrentError::UnknownMessage),
        }
    }
}

/// A run of zero bytes.
pub open spec fn zero_bytes(n: nat) -> Seq<u8> {
    Seq::new(n, |i: int| 0u8)
}

/// The 20-byte request key of a message: the piece index and offset for
/// `Request` and `Piece`, zero-padded; the all-zero sentinel otherwise,
/// which never counts against the pipeline capacity.
pub open spec fn msg_key(m: MessageView) -> Seq<u8> {
    match m {
        MessageView::Request { index, begin, .. } => spec_u32_be(index) + spec_u32_be(begin)
            + zero_bytes(12),
        MessageView::Piece { index, begin, .. } => spec_u32_be(index) + spec_u32_be(begin)
            + zero_bytes(12),
        _ => zero_bytes(20),
    }
}

impl crate::throttle::KeyHash for PeerMessage {
    open spec fn key_spec(&self) -> Seq<u8> {
        msg_key(self@)
    }

    open spec fn tracked_spec(&self) -> bool {
        self@ is Request || self@ is Piece
    }

    fn is_tracked(&self) -> (r: bool) {
        matches!(self, PeerMessage::Request { .. } | PeerMessage::Piece { .. })
    }

    fn key_hash(&self) -> (r: crate::bytes20::Bytes20) {
        let (index, begin): (u32, u32) = match self {
            PeerMessage::Request { index, begin, .. } => (*index, *begin),
            PeerMessage::Piece { index, begin, .. } => (*index, *begin),
            _ => {
                let v = zeros_vec(20);
                let b = crate::bytes20::Bytes20::from_slice(v.as_slice());
                assert(v@.subrange(0, 20) =~= zero_bytes(20));
                return b;
            },
        };
        let mut v: Vec<u8> = Vec::new();
        push_u32_be(&mut v, index);
        push_u32_be(&mut v, begin);
        let mut pad = zeros_vec(12);
        v.append(&mut pad);
        let b = crate::bytes20::Bytes20::from_slice(v.as_slice());
        assert(v@.subrange(0, 20) =~= spec_u32_be(index) + spec_u32_be(begin) + zero_bytes(12));
        b
    }
}

/// An owned copy of a byte vector.
pub fn clone_bytes(v: &Vec<u8>) -> (r: Vec<u8>)
    ensures
        r@ == v@,
{
    let r = vstd::slice::slice_to_vec(v.as_slice());
    assert(r@ =~= v@);
    r
}

/// A vector of `n` zero bytes.
fn zeros_vec(n: usize) -> (r: Vec<u8>)
    ensures
        r@ == zero_bytes(n as nat),
{
    let mut v: Vec<u8> = Vec::new();
    let mut i: usize = 0;
    while i < n
        invariant
            i <= n,
            v@ =~= zero_bytes(i as nat),
        decreases n - i,
    {
        v.push(0);
        i = i + 1;
    }
    assert(v@ =~= zero_bytes(n as nat));
    v
}

/// Every well-formed message decodes back from its own payload: the codec
/// round-trips at the level of the mathematical message.
pub proof fn lemma_payload_round_trip(m: MessageView)
    requires
        wf_message(m),
    ensures
        parse_payload(payload_of(m)) == Ok::<MessageView, BitTorrentError>(m),
{
    let b = payload_of(m);
    match m {
        MessageView::Choke => {},
        MessageView::Unchoke => {},
        MessageView::Interested => {},
        MessageView::NotInterested => {},
        MessageView::Have(i) => {
            assert(b.skip(1) =~= spec_u32_be(i));
            crate::wire::lemma_u32_be_round_trip(i);
        },
        MessageView::Bitfield(bits) => {
            assert(b.skip(1) =~= bits);
        },
        MessageView::Request { index, begin, length } => {
            let p = b.skip(1);
            assert(p =~= spec_u32_be(index) + spec_u32_be(begin) + spec_u32_be(length));
            assert(p.subrange(0, 4) =~= spec_u32_be(index));
            assert(p.subrange(4, 8) =~= spec_u32_be(begin));
            assert(p.subrange(8, 12) =~= spec_u32_be(length));
            crate::wire::lemma_u32_be_round_trip(index);
            crate::wire::lemma_u32_be_round_trip(begin);
            crate::wire::lemma_u32_be_round_trip(length);
        },
        MessageView::Piece { index, begin, block } => {
            let p = b.skip(1);
            assert(p =~= spec_u32_be(index) + spec_u32_be(begin) + block);
            assert(p.subrange(0, 4) =~= spec_u32_be(index));
            assert(p.subrange(4, 8) =~= spec_u32_be(begin));
            assert(p.skip(8) =~= block);
            crate::wire::lemma_u32_be_round_trip(index);
            crate::wire::lemma_u32_be_round_trip(begin);
        },
        MessageView::Cancel { index, begin, length } => {
            let p = b.skip(1);
            assert(p =~= spec_u32_be(index) + spec_u32_be(begin) + spec_u32_be(length));
            assert(p.subrange(0, 4) =~= spec_u32_be(index));
            assert(p.subrange(4, 8) =~= spec_u32_be(begin));
            assert(p.subrange(8, 12) =~= spec_u32_be(length));
            crate::wire::lemma_u32_be_round_trip(index);
            crate::wire::lemma_u32_be_round_trip(begin);
            crate::wire::lemma_u32_be_round_trip(length);
        },
    }
}

} // verus!
