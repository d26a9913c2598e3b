use bittorrent::broker::Broker;
use bittorrent::bytes20::Bytes20;
use bittorrent::coordinator::{assemble_pieces, assign_round_robin, verify_piece};
use bittorrent::error::BitTorrentError;
use bittorrent::extension::Extension;
use bittorrent::frame::{Message, MessageBuf, MessageDecoder};
use bittorrent::handshake::Handshake;
use bittorrent::message::PeerMessage;
use bittorrent::piece::{Blocks, Piece, PieceManager};
use bittorrent::session::{Session, SessionAction};
use bittorrent::throttle::{KeyHash, ThrottleQueue};

fn request(index: u32, begin: u32, length: u32) -> PeerMessage {
    PeerMessage::Request {
        index,
        begin,
        length,
    }
}

#[test]
fn frame_round_trip_request() {
    let msg = request(7, 32768, 16384);
    let bytes = msg.into_bytes();
    assert_eq!(
        bytes,
        vec![
            0x00, 0x00, 0x00, 0x0D, 0x06, 0x00, 0x00, 0x00, 0x07, 0x00, 0x00, 0x80, 0x00, 0x00,
            0x00, 0x40, 0x00
        ]
    );
    let back = PeerMessage::from_payload(&bytes[4..]).unwrap();
    assert_eq!(back, request(7, 32768, 16384));
}

#[test]
fn frame_round_trip_every_variant() {
    let messages = vec![
        PeerMessage::Choke,
        PeerMessage::Unchoke,
        PeerMessage::Interested,
        PeerMessage::NotInterested,
        PeerMessage::Have(9),
        PeerMessage::Bitfield(vec![0xff, 0x01]),
        request(1, 2, 3),
        PeerMessage::Piece {
            index: 4,
            begin: 5,
            block: vec![6, 7, 8],
        },
        PeerMessage::Cancel {
            index: 1,
            begin: 2,
            length: 3,
        },
    ];
    for msg in messages {
        let copy = msg.clone();
        let bytes = msg.into_bytes();
        let back = PeerMessage::from_payload(&bytes[4..]).unwrap();
        assert_eq!(back, copy);
    }
}

#[test]
fn zero_length_bitfield_is_accepted() {
    let back = PeerMessage::from_payload(&[5u8]).unwrap();
    assert_eq!(back, PeerMessage::Bitfield(vec![]));
}

#[test]
fn malformed_and_unknown_payloads_are_refused() {
    assert_eq!(
        PeerMessage::from_payload(&[4u8, 0]).unwrap_err(),
        BitTorrentError::MalformedFrame
    );
    assert_eq!(
        PeerMessage::from_payload(&[6u8, 0, 0, 0]).unwrap_err(),
        BitTorrentError::MalformedFrame
    );
    assert_eq!(
        PeerMessage::from_payload(&[7u8, 0, 0, 0, 0]).unwrap_err(),
        BitTorrentError::MalformedFrame
    );
    assert_eq!(
        PeerMessage::from_payload(&[9u8]).unwrap_err(),
        BitTorrentError::UnknownMessage
    );
    assert_eq!(
        PeerMessage::from_payload(&[]).unwrap_err(),
        BitTorrentError::MalformedFrame
    );
}

#[test]
fn decoder_is_split_insensitive() {
    let mut stream: Vec<u8> = Vec::new();
    stream.extend_from_slice(&request(1, 0, 16384).into_bytes());
    stream.extend_from_slice(&PeerMessage::Have(3).into_bytes());
    stream.extend_from_slice(&[0, 0, 0, 0]); // keepalive
    stream.extend_from_slice(&PeerMessage::Bitfield(vec![0xaa]).into_bytes());

    // Whole stream at once.
    let mut whole = MessageDecoder::new();
    let frames_whole = whole.feed(&stream);

    // One byte at a time.
    let mut split = MessageDecoder::new();
    let mut frames_split: Vec<Vec<u8>> = Vec::new();
    for b in &stream {
        frames_split.extend(split.feed(&[*b]));
    }

    assert_eq!(frames_whole, frames_split);
    assert_eq!(frames_whole.len(), 4);
    assert_eq!(frames_whole[2], Vec::<u8>::new());
    let msg = Message::from_frame(&frames_whole[2]).unwrap();
    assert_eq!(msg, Message::KeepAlive);
    let msg = Message::from_frame(&frames_whole[1]).unwrap();
    assert_eq!(msg, Message::Peer(PeerMessage::Have(3)));
}

#[test]
fn message_buf_builds_when_whole() {
    let mut buf = MessageBuf::new();
    let bytes = PeerMessage::Have(3).into_bytes();
    buf.write(&bytes[..4]);
    assert!(buf.build_if_ready().is_none());
    buf.write(&bytes[4..]);
    let msg = buf.build_if_ready().unwrap().unwrap();
    assert_eq!(msg, PeerMessage::Have(3));
}

#[test]
fn handshake_wire_bytes() {
    let info_hash = Bytes20::new([0x01; 20]);
    let peer_id = Bytes20::new(*b"-CT0001-012345678901");
    let hs = Handshake::new(info_hash, peer_id);
    let mut expected: Vec<u8> = vec![0x13];
    expected.extend_from_slice(b"BitTorrent protocol");
    expected.extend_from_slice(&[0x00, 0x00, 0x00, 0x00, 0x00, 0x10, 0x00, 0x00]);
    expected.extend_from_slice(&[0x01; 20]);
    expected.extend_from_slice(b"-CT0001-012345678901");
    assert_eq!(hs.as_bytes(), &expected[..]);
    assert!(hs.supports_extensions());
    assert_eq!(hs.peer_id().as_slice(), b"-CT0001-012345678901");
}

#[test]
fn handshake_info_hash_check() {
    let info_hash = Bytes20::new([0x01; 20]);
    let peer_id = Bytes20::new(*b"-CT0001-012345678901");
    let hs = Handshake::new(info_hash, peer_id);
    let echoed = Handshake::from_bytes(hs.as_bytes()).unwrap();
    assert!(echoed.verify_info_hash(&info_hash).is_ok());
    let other = Bytes20::new([0x02; 20]);
    assert_eq!(
        echoed.verify_info_hash(&other).unwrap_err(),
        BitTorrentError::MismatchedInfoHash
    );
    assert!(Handshake::from_bytes(&[0u8; 10]).is_err());
}

#[test]
fn extension_handshake_decode() {
    // 14 00 d 1:m d 11:ut_metadata i3e e e, length prefix omitted.
    let mut bytes: Vec<u8> = vec![0x14, 0x00];
    bytes.extend_from_slice(b"d1:md11:ut_metadatai3eee");
    let ext = Extension::from_bytes(&bytes).unwrap();
    assert_eq!(ext.metadata_ext_id(), Some(3));
    match &ext {
        Extension::Handshake(_) => {}
        _ => panic!("expected a handshake frame"),
    }
}

#[test]
fn extension_request_frame_bytes() {
    let req = Extension::RequestMetadata {
        ext_id: 3,
        piece: 0,
    };
    let bytes = req.as_bytes();
    // length || 20 || 3 || d8:msg_typei0e5:piecei0ee
    let dict = b"d8:msg_typei0e5:piecei0ee";
    assert_eq!(&bytes[4..6], &[20, 3]);
    assert_eq!(&bytes[6..], &dict[..]);
    let back = Extension::from_bytes(&bytes[4..]).unwrap();
    assert_eq!(back, req);
}

#[test]
fn extension_metadata_data_round_trip() {
    let frame = Extension::Metadata {
        ext_id: 2,
        piece: 1,
        data: vec![9, 8, 7],
    };
    let bytes = frame.as_bytes();
    let back = Extension::from_bytes(&bytes[4..]).unwrap();
    assert_eq!(back, frame);
}

#[test]
fn extension_reject_round_trip() {
    let frame = Extension::Rejected {
        ext_id: 4,
        piece: 2,
    };
    let bytes = frame.as_bytes();
    let back = Extension::from_bytes(&bytes[4..]).unwrap();
    assert_eq!(back, frame);
    let our_handshake = bittorrent::extension::handshake();
    assert_eq!(our_handshake.metadata_ext_id(), Some(1));
}

#[test]
fn session_state_machine_walk() {
    let peer_id = Bytes20::new(*b"-CT0001-012345678901");
    let mut session = Session::new(peer_id);
    assert!(!session.is_ready());
    let act = session.on_peer_message(&PeerMessage::Unchoke);
    assert_eq!(act, SessionAction::DoNothing);
    assert!(!session.is_ready());
    let act = session.on_peer_message(&PeerMessage::Bitfield(vec![]));
    assert_eq!(act, SessionAction::SendInterested);
    let act = session.on_peer_message(&PeerMessage::Unchoke);
    assert_eq!(act, SessionAction::DoNothing);
    assert!(session.is_ready());
    session.on_peer_message(&PeerMessage::Choke);
    assert!(!session.is_ready());
    session.on_extension_handshake(None);
    assert_eq!(session.metadata_id(), None);
    session.on_extension_handshake(Some(7));
    assert_eq!(session.metadata_id(), Some(7));
}

#[test]
fn have_only_peer_can_become_ready() {
    // A peer that never sends a bitfield counts as all-zero and still
    // reaches readiness through its unchoke.
    let peer_id = Bytes20::new(*b"-CT0001-012345678901");
    let mut session = Session::new(peer_id);
    let act = session.on_peer_message(&PeerMessage::Have(0));
    assert_eq!(act, SessionAction::SendInterested);
    session.on_peer_message(&PeerMessage::Unchoke);
    assert!(session.is_ready());
}

#[test]
fn throttle_bound_holds() {
    let mut queue: ThrottleQueue<PeerMessage> = ThrottleQueue::new(5);
    let mut dispatched = 0;
    for i in 0..8u32 {
        if queue.queue(request(0, i * 16384, 16384)).is_some() {
            dispatched += 1;
        }
    }
    assert_eq!(dispatched, 5);
    assert!(queue.is_full());

    // Two acknowledgements promote exactly two waiting requests.
    let mut promoted = 0;
    for i in 0..2u32 {
        let key = request(0, i * 16384, 16384).key_hash();
        if let Some(next) = queue.done(key) {
            promoted += 1;
            assert_eq!(next, request(0, (5 + i) * 16384, 16384));
        }
    }
    assert_eq!(promoted, 2);
    assert!(queue.is_full());
}

#[test]
fn test_throttle_queue() {
    let mut queue: ThrottleQueue<PeerMessage> = ThrottleQueue::new(2);
    let item1 = request(1, 2, 3);
    let item2 = request(4, 5, 6);
    let item3 = request(7, 8, 9);

    let sent1 = queue.queue(item1.clone());
    let sent2 = queue.queue(item2.clone());
    let sent3 = queue.queue(item3.clone());
    assert_eq!(sent1, Some(item1.clone()));
    assert_eq!(sent2, Some(item2.clone()));
    assert_eq!(sent3, None);

    let promoted = queue.done(item1.key_hash());
    assert_eq!(promoted, Some(item3));
    assert!(queue.is_full());
}

#[test]
fn untracked_messages_bypass_the_pipeline() {
    let mut queue: ThrottleQueue<PeerMessage> = ThrottleQueue::new(1);
    assert!(queue.queue(request(0, 0, 16384)).is_some());
    assert!(queue.queue(request(0, 16384, 16384)).is_none());
    // Control messages carry the sentinel key and never take a slot.
    assert_eq!(queue.queue(PeerMessage::Choke), Some(PeerMessage::Choke));
    assert_eq!(
        queue.queue(PeerMessage::Interested),
        Some(PeerMessage::Interested)
    );
    assert!(queue.is_full());
}

#[test]
fn throttle_drops_cancelled_duplicates() {
    let mut queue: ThrottleQueue<PeerMessage> = ThrottleQueue::new(1);
    let a = request(0, 0, 16384);
    let b = request(0, 16384, 16384);
    assert!(queue.queue(a.clone()).is_some());
    assert!(queue.queue(b.clone()).is_none());
    assert!(queue.queue(b.clone()).is_none());
    // Acknowledging a key that is not in flight discards its waiters.
    let c = request(9, 9, 9);
    assert_eq!(queue.done(b.key_hash()), None);
    assert_eq!(queue.done(a.key_hash()), None);
    assert!(queue.queue(c.clone()).is_some());
}

#[test]
fn reassembler_completes_once() {
    let mut manager = PieceManager::new();
    manager.new_block(0, 5);
    let done = manager.insert_block(0, 0, vec![1, 2, 3]).unwrap();
    assert!(done.is_none());
    let done = manager.insert_block(0, 3, vec![4, 5]).unwrap();
    assert_eq!(
        done,
        Some(Piece {
            index: 0,
            data: vec![1, 2, 3, 4, 5]
        })
    );
    // A completed piece never completes again.
    assert_eq!(
        manager.insert_block(0, 0, vec![9]).unwrap_err(),
        BitTorrentError::OrphanBlock
    );
    manager.new_block(0, 5);
    assert_eq!(
        manager.insert_block(0, 0, vec![9]).unwrap_err(),
        BitTorrentError::OrphanBlock
    );
}

#[test]
fn reassembler_rejects_orphans_and_overlong_blocks() {
    let mut manager = PieceManager::new();
    assert_eq!(
        manager.insert_block(3, 0, vec![1]).unwrap_err(),
        BitTorrentError::OrphanBlock
    );
    manager.new_block(3, 4);
    assert_eq!(
        manager.insert_block(3, 2, vec![1, 2, 3]).unwrap_err(),
        BitTorrentError::OverlongBlock
    );
    assert_eq!(manager.insert_block(3, 0, vec![1, 2]).unwrap(), None);
}

#[test]
fn blocks_accumulator_tracks_completion() {
    let mut blocks = Blocks::new(2, 4);
    assert!(!blocks.is_complete());
    blocks.insert_block(0, vec![1, 2]).unwrap();
    blocks.insert_block(2, vec![3, 4]).unwrap();
    assert!(blocks.is_complete());
    let piece = blocks.into_piece().unwrap();
    assert_eq!(piece.index, 2);
    assert_eq!(piece.data, vec![1, 2, 3, 4]);
}

#[test]
fn single_block_piece_download() {
    // piece_length = 32768, length = 40000: piece 1 is 7232 bytes,
    // fetched with exactly one request.
    let mut broker = Broker::new();
    let to_send = broker.request_piece(1, 7232);
    assert_eq!(to_send, vec![request(1, 0, 7232)]);
    let block: Vec<u8> = vec![7; 7232];
    let (promoted, completed) = broker
        .on_message(&PeerMessage::Piece {
            index: 1,
            begin: 0,
            block: block.clone(),
        })
        .unwrap();
    assert_eq!(promoted, None);
    assert_eq!(
        completed,
        Some(Piece {
            index: 1,
            data: block
        })
    );
}

#[test]
fn broker_pipelines_at_most_five() {
    let mut broker = Broker::new();
    // Eight blocks: 8 * 16384 = 131072.
    let to_send = broker.request_piece(0, 131072);
    assert_eq!(to_send.len(), 5);
    for (i, msg) in to_send.iter().enumerate() {
        assert_eq!(*msg, request(0, (i as u32) * 16384, 16384));
    }
    // Each arriving block frees a slot and promotes the next request.
    let (promoted, completed) = broker
        .on_message(&PeerMessage::Piece {
            index: 0,
            begin: 0,
            block: vec![0; 16384],
        })
        .unwrap();
    assert_eq!(promoted, Some(request(0, 5 * 16384, 16384)));
    assert!(completed.is_none());
    let (promoted, _) = broker
        .on_message(&PeerMessage::Piece {
            index: 0,
            begin: 16384,
            block: vec![0; 16384],
        })
        .unwrap();
    assert_eq!(promoted, Some(request(0, 6 * 16384, 16384)));
}

#[test]
fn last_block_takes_the_remainder() {
    let mut broker = Broker::new();
    let to_send = broker.request_piece(0, 40000);
    // 40000 = 16384 + 16384 + 7232
    assert_eq!(
        to_send,
        vec![
            request(0, 0, 16384),
            request(0, 16384, 16384),
            request(0, 32768, 7232),
        ]
    );
}

#[test]
fn multi_peer_dispatch_pattern() {
    let assignment = assign_round_robin(3, 9);
    assert_eq!(assignment, vec![0, 1, 2, 0, 1, 2, 0, 1, 2]);
}

#[test]
fn assembly_sorts_by_index() {
    let pieces = vec![
        Piece {
            index: 2,
            data: vec![5, 6],
        },
        Piece {
            index: 0,
            data: vec![1, 2],
        },
        Piece {
            index: 1,
            data: vec![3, 4],
        },
    ];
    let whole = assemble_pieces(&pieces, 3).unwrap();
    assert_eq!(whole, vec![1, 2, 3, 4, 5, 6]);
    assert_eq!(
        assemble_pieces(&pieces, 4).unwrap_err(),
        BitTorrentError::OrphanBlock
    );
}

#[test]
fn piece_verification_against_sha1() {
    // SHA-1 of "abc".
    let expected =
        Bytes20::from_vec(&hex::decode("a9993e364706816aba3e25717850c26c9cd0d89d").unwrap())
            .unwrap();
    assert!(verify_piece(0, b"abc", &expected).is_ok());
    assert_eq!(
        verify_piece(3, b"abd", &expected).unwrap_err(),
        BitTorrentError::PieceHashMismatch { index: 3 }
    );
}

#[test]
fn hex_spelling_of_a_hash() {
    let h = Bytes20::new([0x01; 20]);
    assert_eq!(h.hex_encoded(), "0101010101010101010101010101010101010101");
    let mixed = Bytes20::from_vec(&hex::decode("ad42ce8109f54c99613ce38f9b4d87e70f24a165").unwrap())
        .unwrap();
    assert_eq!(mixed.hex_encoded(), "ad42ce8109f54c99613ce38f9b4d87e70f24a165");
}

#[test]
fn error_kinds_have_names() {
    assert_eq!(
        BitTorrentError::MalformedFrame.kind_name(),
        "malformed frame"
    );
    assert_eq!(
        BitTorrentError::NoPeersAvailable.kind_name(),
        "no peers available"
    );
}
