//! The closed set of failures the engine reports.

use vstd::prelude::*;

verus! {

/// Everything that can go wrong across bencode handling, the peer wire,
/// metadata transfer, reassembly, verification and peer discovery.
#[derive(Clone, Copy, Debug, PartialEq, Eq, Structural)]
pub enum BitTorrentError {
    /// The input is not well-formed bencode.
    BencodeMalformed,
    /// The bencode value is well-formed but of the wrong kind for the caller.
    BencodeUnexpectedKind,
    /// A frame's payload does not match the layout its message ID demands.
    MalformedFrame,
    /// A frame carries a message ID outside the known set.
    UnknownMessage,
    /// The handshake echoed an info-hash other than the one sent.
    MismatchedInfoHash,
    /// The remote end closed before the awaited transition.
    PeerClosedPrematurely,
    /// The peer did not advertise the metadata extension.
    ExtensionUnsupported,
    /// The peer rejected a metadata piece request.
    MetadataRejected,
    /// The assembled metadata does not hash to the expected info-hash.
    MetadataHashMismatch,
    /// A block arrived for a piece with no open accumulator.
    OrphanBlock,
    /// A block reaches past the declared piece length.
    OverlongBlock,
    /// A completed piece failed content verification.
    PieceHashMismatch { index: u32 },
    /// The tracker could not be queried or answered unusably.
    TrackerHttpFailed,
    /// No peer survived connection and readiness.
    NoPeersAvailable,
    /// The magnet URI is missing or mangles its required parts.
    InvalidMagnetLink,
    /// Transport or file input/output failed.
    IoFailure,
}

impl BitTorrentError {
    /// A fixed, single-line name for the error kind.
    pub fn kind_name(&self) -> (r: &'static str)
        ensures
            r@.len() > 0,
            self is BencodeMalformed ==> r@ == "malformed bencode"@,
            self is BencodeUnexpectedKind ==> r@ == "unexpected bencode kind"@,
            self is MalformedFrame ==> r@ == "malformed frame"@,
            self is UnknownMessage ==> r@ == "unknown message id"@,
            self is MismatchedInfoHash ==> r@ == "mismatched info-hash"@,
            self is PeerClosedPrematurely ==> r@ == "peer closed prematurely"@,
            self is ExtensionUnsupported ==> r@ == "extension unsupported"@,
            self is MetadataRejected ==> r@ == "metadata piece rejected"@,
            self is MetadataHashMismatch ==> r@ == "metadata hash mismatch"@,
            self is OrphanBlock ==> r@ == "orphan block"@,
            self is OverlongBlock ==> r@ == "overlong block"@,
            self is PieceHashMismatch ==> r@ == "piece hash mismatch"@,
            self is TrackerHttpFailed ==> r@ == "tracker request failed"@,
            self is NoPeersAvailable ==> r@ == "no peers available"@,
            self is InvalidMagnetLink ==> r@ == "invalid magnet link"@,
            self is IoFailure ==> r@ == "input/output failure"@,
    {
        let r = match self {
            BitTorrentError::BencodeMalformed => "malformed bencode",
            BitTorrentError::BencodeUnexpectedKind => "unexpected bencode kind",
            BitTorrentError::MalformedFrame => "malformed frame",
            BitTorrentError::UnknownMessage => "unknown message id",
            BitTorrentError::MismatchedInfoHash => "mismatched info-hash",
            BitTorrentError::PeerClosedPrematurely => "peer closed prematurely",
            BitTorrentError::ExtensionUnsupported => "extension unsupported",
            BitTorrentError::MetadataRejected => "metadata piece rejected",
            BitTorrentError::MetadataHashMismatch => "metadata hash mismatch",
            BitTorrentError::OrphanBlock => "orphan block",
            BitTorrentError::OverlongBlock => "overlong block",
            BitTorrentError::PieceHashMismatch { .. } => "piece hash mismatch",
            BitTorrentError::TrackerHttpFailed => "tracker request failed",
            BitTorrentError::NoPeersAvailable => "no peers available",
            BitTorrentError::InvalidMagnetLink => "invalid magnet link",
            BitTorrentError::IoFailure => "input/output failure",
        };
        proof {
            reveal_strlit("malformed bencode");
            reveal_strlit("unexpected bencode kind");
            reveal_strlit("malformed frame");
            reveal_strlit("unknown message id");
            reveal_strlit("mismatched info-hash");
            reveal_strlit("peer closed prematurely");
            reveal_strlit("extension unsupported");
            reveal_strlit("metadata piece rejected");
            reveal_strlit("metadata hash mismatch");
            reveal_strlit("orphan block");
            reveal_strlit("overlong block");
            reveal_strlit("piece hash mismatch");
            reveal_strlit("tracker request failed");
            reveal_strlit("no peers available");
            reveal_strlit("invalid magnet link");
            reveal_strlit("input/output failure");
        }
        r
    }
}

} // verus!
