//! The fixed 68-byte opening exchange.

use vstd::prelude::*;

use crate::bytes20::Bytes20;
use crate::error::BitTorrentError;

verus! {

/// The leading 20 bytes: the length 19, then "BitTorrent protocol".
pub open spec fn protocol_header() -> Seq<u8> {
    seq![
        19u8,
        0x42,
        0x69,
        0x74,
        0x54,
        0x6f,
        0x72,
        0x72,
        0x65,
        0x6e,
        0x74,
        0x20,
        0x70,
        0x72,
        0x6f,
        0x74,
        0x6f,
        0x63,
        0x6f,
        0x6c,
    ]
}

/// The eight reserved bytes, with bit 0x10 of byte five announcing the
/// extension protocol.
pub open spec fn reserved_bytes() -> Seq<u8> {
    seq![0u8, 0, 0, 0, 0, 0x10, 0, 0]
}

/// The whole frame: header, reserved flags, info-hash, peer ID.
pub open spec fn handshake_bytes(info_hash: Seq<u8>, peer_id: Seq<u8>) -> Seq<u8> {
    protocol_header() + reserved_bytes() + info_hash + peer_id
}

/// One 68-byte handshake frame, ours or the remote end's.
pub struct Handshake {
    bytes: Vec<u8>,
}

impl View for Handshake {
    type V = Seq<u8>;

    closed spec fn view(&self) -> Seq<u8> {
        self.bytes@
    }
}

impl Handshake {
    /// Always exactly 68 bytes.
    pub open spec fn wf(&self) -> bool {
        self@.len() == 68
    }

    /// The frame this client sends: extension support announced, the
    /// given info-hash and peer ID in their fixed places.
    pub fn new(info_hash: Bytes20, peer_id: Bytes20) -> (r: Handshake)
        ensures
            r.wf(),
            r@ == handshake_bytes(info_hash@, peer_id@),
    {
        let mut bytes: Vec<u8> = Vec::new();
        bytes.push(19);
        bytes.push(0x42);
        bytes.push(0x69);
        bytes.push(0x74);
        bytes.push(0x54);
        bytes.push(0x6f);
        bytes.push(0x72);
        bytes.push(0x72);
        bytes.push(0x65);
        bytes.push(0x6e);
        bytes.push(0x74);
        bytes.push(0x20);
        bytes.push(0x70);
        bytes.push(0x72);
        bytes.push(0x6f);
        bytes.push(0x74);
        bytes.push(0x6f);
        bytes.push(0x63);
        bytes.push(0x6f);
        bytes.push(0x6c);
        bytes.push(0);
        bytes.push(0);
        bytes.push(0);
        bytes.push(0);
        bytes.push(0);
        bytes.push(0x10);
        bytes.push(0);
        bytes.push(0);
        let mut ih = vstd::slice::slice_to_vec(info_hash.as_slice());
        bytes.append(&mut ih);
        let mut pid = vstd::slice::slice_to_vec(peer_id.as_slice());
        bytes.append(&mut pid);
        let r = Handshake { bytes };
        proof {
            info_hash.lemma_len();
            peer_id.lemma_len();
            assert(r@ =~= handshake_bytes(info_hash@, peer_id@));
        }
        r
    }

    /// Wraps the 68 bytes a remote end answered; any other length means
    /// the peer closed or garbled the exchange.
    pub fn from_bytes(resp: &[u8]) -> (r: Result<Handshake, BitTorrentError>)
        ensures
            r is Ok <==> resp@.len() == 68,
            r is Ok ==> r->Ok_0@ == resp@ && r->Ok_0.wf(),
    {
        if resp.len() != 68 {
            return Err(BitTorrentError::PeerClosedPrematurely);
        }
        let bytes = vstd::slice::slice_to_vec(resp);
        Ok(Handshake { bytes })
    }

    /// The frame bytes, for writing to the wire.
    pub fn as_bytes(&self) -> (r: &[u8])
        ensures
            r@ == self@,
    {
        self.bytes.as_slice()
    }

    /// The info-hash field.
    pub fn info_hash(&self) -> (r: Bytes20)
        requires
            self.wf(),
        ensures
            r@ == self@.subrange(28, 48),
    {
        let s = vstd::slice::slice_subrange(self.bytes.as_slice(), 28, 48);
        let b = Bytes20::from_slice(s);
        assert(s@.subrange(0, 20) =~= self@.subrange(28, 48));
        b
    }

    /// The peer-ID field.
    pub fn peer_id(&self) -> (r: Bytes20)
        requires
            self.wf(),
        ensures
            r@ == self@.subrange(48, 68),
    {
        let s = vstd::slice::slice_subrange(self.bytes.as_slice(), 48, 68);
        let b = Bytes20::from_slice(s);
        assert(s@.subrange(0, 20) =~= self@.subrange(48, 68));
        b
    }

    /// Whether the reserved flags announce the extension protocol.
    pub fn supports_extensions(&self) -> (r: bool)
        requires
            self.wf(),
        ensures
            r == (self@[25] & 0x10 != 0),
    {
        self.bytes[25] & 0x10 != 0
    }

    /// Checks the echoed info-hash against the one this client sent; a
    /// different hash is a different torrent.
    pub fn verify_info_hash(&self, expected: &Bytes20) -> (r: Result<(), BitTorrentError>)
        requires
            self.wf(),
        ensures
            r is Ok <==> self@.subrange(28, 48) == expected@,
            r is Err ==> r->Err_0 == BitTorrentError::MismatchedInfoHash,
    {
        let got = self.info_hash();
        if got == *expected {
            Ok(())
        } else {
            Err(BitTorrentError::MismatchedInfoHash)
        }
    }
}

} // verus!
