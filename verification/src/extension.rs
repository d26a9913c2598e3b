//! The `ut_metadata` extension: handshake dictionaries and metadata-piece
//! transport under message ID 20.

use vstd::prelude::*;

use crate::bencode::{benc, dict_lookup, encode_into, parse_at, Bencode, BencodeView};
use crate::error::BitTorrentError;
use crate::wire::{push_u32_be, spec_u32_be};

verus! {

/// Whether a frame's first byte is the extension envelope.
pub fn is_extension_message(id: u8) -> (r: bool)
    ensures
        r == (id == 20),
{
    id == 20
}

/// The key "m".
pub open spec fn key_m() -> Seq<u8> {
    seq![0x6du8]
}

/// The key "ut_metadata".
pub open spec fn key_ut_metadata() -> Seq<u8> {
    seq![0x75u8, 0x74, 0x5f, 0x6d, 0x65, 0x74, 0x61, 0x64, 0x61, 0x74, 0x61]
}

/// The key "msg_type".
pub open spec fn key_msg_type() -> Seq<u8> {
    seq![0x6du8, 0x73, 0x67, 0x5f, 0x74, 0x79, 0x70, 0x65]
}

/// The key "piece".
pub open spec fn key_piece() -> Seq<u8> {
    seq![0x70u8, 0x69, 0x65, 0x63, 0x65]
}

/// The key "total_size".
pub open spec fn key_total_size() -> Seq<u8> {
    seq![0x74u8, 0x6f, 0x74, 0x61, 0x6c, 0x5f, 0x73, 0x69, 0x7a, 0x65]
}

/// An extension-protocol frame.
#[derive(Debug, PartialEq)]
pub enum Extension {
    /// The extension handshake: a bencode dictionary.
    Handshake(Bencode),
    /// An outbound request for one metadata piece.
    RequestMetadata { ext_id: u8, piece: u32 },
    /// One metadata piece, its raw bytes after the dictionary.
    Metadata { ext_id: u8, piece: u32, data: Vec<u8> },
    /// The peer declined a metadata piece.
    Rejected { ext_id: u8, piece: u32 },
}

/// The mathematical shape of an extension frame.
#[verifier::ext_equal]
pub enum ExtensionView {
    Handshake(BencodeView),
    RequestMetadata { ext_id: u8, piece: u32 },
    Metadata { ext_id: u8, piece: u32, data: Seq<u8> },
    Rejected { ext_id: u8, piece: u32 },
}

impl View for Extension {
    type V = ExtensionView;

    open spec fn view(&self) -> ExtensionView {
        match self {
            Extension::Handshake(d) => ExtensionView::Handshake(d@),
            Extension::RequestMetadata { ext_id, piece } => ExtensionView::RequestMetadata {
                ext_id: *ext_id,
                piece: *piece,
            },
            Extension::Metadata { ext_id, piece, data } => ExtensionView::Metadata {
                ext_id: *ext_id,
                piece: *piece,
                data: data@,
            },
            Extension::Rejected { ext_id, piece } => ExtensionView::Rejected {
                ext_id: *ext_id,
                piece: *piece,
            },
        }
    }
}

/// The dictionary of an outbound metadata request.
pub open spec fn request_dict(piece: u32) -> BencodeView {
    BencodeView::Dict(
        seq![
            (key_msg_type(), BencodeView::Int(0)),
            (key_piece(), BencodeView::Int(piece as i64)),
        ],
    )
}

/// The dictionary of a metadata data frame.
pub open spec fn metadata_dict(piece: u32, total: int) -> BencodeView {
    BencodeView::Dict(
        seq![
            (key_msg_type(), BencodeView::Int(1)),
            (key_piece(), BencodeView::Int(piece as i64)),
            (key_total_size(), BencodeView::Int(total as i64)),
        ],
    )
}

/// The dictionary of a reject frame.
pub open spec fn rejected_dict(piece: u32) -> BencodeView {
    BencodeView::Dict(
        seq![
            (key_msg_type(), BencodeView::Int(2)),
            (key_piece(), BencodeView::Int(piece as i64)),
        ],
    )
}

/// The bencoded body of a frame: its dictionary, and for metadata frames
/// the raw piece bytes right after it.
pub open spec fn ext_body(v: ExtensionView) -> Seq<u8> {
    match v {
        ExtensionView::Handshake(d) => benc(crate::bencode::canon_spec(d)),
        ExtensionView::RequestMetadata { piece, .. } => benc(request_dict(piece)),
        ExtensionView::Metadata { piece, data, .. } => benc(
            metadata_dict(piece, data.len() as int),
        ) + data,
        ExtensionView::Rejected { piece, .. } => benc(rejected_dict(piece)),
    }
}

/// The extended message number a frame is sent under: zero for the
/// handshake, the advertised number otherwise.
pub open spec fn ext_frame_id(v: ExtensionView) -> u8 {
    match v {
        ExtensionView::Handshake(_) => 0,
        ExtensionView::RequestMetadata { ext_id, .. } => ext_id,
        ExtensionView::Metadata { ext_id, .. } => ext_id,
        ExtensionView::Rejected { ext_id, .. } => ext_id,
    }
}

/// The whole wire frame: length, envelope ID 20, extended ID, body.
pub open spec fn ext_frame(v: ExtensionView) -> Seq<u8> {
    spec_u32_be((ext_body(v).len() + 2) as u32) + seq![20u8, ext_frame_id(v)] + ext_body(v)
}

/// The remote `ut_metadata` number a handshake dictionary advertises
/// under its "m" map; extension numbers are bytes, so the value is
/// taken modulo 256.
pub open spec fn handshake_metadata_id(v: BencodeView) -> Option<u8> {
    match v {
        BencodeView::Dict(d) => match dict_lookup(d, key_m()) {
            Some(BencodeView::Dict(m)) => match dict_lookup(m, key_ut_metadata()) {
                Some(BencodeView::Int(i)) => Some(i as u8),
                _ => None,
            },
            _ => None,
        },
        _ => None,
    }
}

/// The metadata number a frame names: read from the dictionary for a
/// handshake, carried directly by the other variants.
pub open spec fn metadata_ext_id_spec(v: ExtensionView) -> Option<u8> {
    match v {
        ExtensionView::Handshake(d) => handshake_metadata_id(d),
        ExtensionView::RequestMetadata { ext_id, .. } => Some(ext_id),
        ExtensionView::Metadata { ext_id, .. } => Some(ext_id),
        ExtensionView::Rejected { ext_id, .. } => Some(ext_id),
    }
}

/// The key "m" as a vector.
fn m_key() -> (r: Vec<u8>)
    ensures
        r@ == key_m(),
{
    let mut v: Vec<u8> = Vec::new();
    v.push(0x6d);
    assert(v@ =~= key_m());
    v
}

/// The key "ut_metadata" as a vector.
fn ut_metadata_key() -> (r: Vec<u8>)
    ensures
        r@ == key_ut_metadata(),
{
    let mut v: Vec<u8> = Vec::new();
    v.push(0x75);
    v.push(0x74);
    v.push(0x5f);
    v.push(0x6d);
    v.push(0x65);
    v.push(0x74);
    v.push(0x61);
    v.push(0x64);
    v.push(0x61);
    v.push(0x74);
    v.push(0x61);
    assert(v@ =~= key_ut_metadata());
    v
}

/// The key "msg_type" as a vector.
fn msg_type_key() -> (r: Vec<u8>)
    ensures
        r@ == key_msg_type(),
{
    let mut v: Vec<u8> = Vec::new();
    v.push(0x6d);
    v.push(0x73);
    v.push(0x67);
    v.push(0x5f);
    v.push(0x74);
    v.push(0x79);
    v.push(0x70);
    v.push(0x65);
    assert(v@ =~= key_msg_type());
    v
}

/// The key "piece" as a vector.
fn piece_key() -> (r: Vec<u8>)
    ensures
        r@ == key_piece(),
{
    let mut v: Vec<u8> = Vec::new();
    v.push(0x70);
    v.push(0x69);
    v.push(0x65);
    v.push(0x63);
    v.push(0x65);
    assert(v@ =~= key_piece());
    v
}

/// The key "total_size" as a vector.
fn total_size_key() -> (r: Vec<u8>)
    ensures
        r@ == key_total_size(),
{
    let mut v: Vec<u8> = Vec::new();
    v.push(0x74);
    v.push(0x6f);
    v.push(0x74);
    v.push(0x61);
    v.push(0x6c);
    v.push(0x5f);
    v.push(0x73);
    v.push(0x69);
    v.push(0x7a);
    v.push(0x65);
    assert(v@ =~= key_total_size());
    v
}

/// The extension handshake this client opens with: it speaks
/// `ut_metadata` under its own number one.
pub fn handshake() -> (r: Extension)
    ensures
        r@ == ExtensionView::Handshake(
            BencodeView::Dict(
                seq![
                    (
                        key_m(),
                        BencodeView::Dict(seq![(key_ut_metadata(), BencodeView::Int(1))]),
                    ),
                ],
            ),
        ),
{
    let mut inner: Vec<(Vec<u8>, Bencode)> = Vec::new();
    inner.push((ut_metadata_key(), Bencode::Int(1)));
    let mut outer: Vec<(Vec<u8>, Bencode)> = Vec::new();
    outer.push((m_key(), Bencode::Dict(inner)));
    let r = Extension::Handshake(Bencode::Dict(outer));
    proof {
        reveal_with_fuel(crate::bencode::bview, 3);
        crate::bencode::lemma_bview_pairs_props(outer@);
        crate::bencode::lemma_bview_pairs_props(inner@);
        assert(crate::bencode::bview_pairs(inner@)[0] == (
            key_ut_metadata(),
            BencodeView::Int(1),
        ));
        assert(crate::bencode::bview_pairs(inner@) =~= seq![
            (key_ut_metadata(), BencodeView::Int(1)),
        ]);
        assert(crate::bencode::bview_pairs(outer@)[0] == (
            key_m(),
            BencodeView::Dict(seq![(key_ut_metadata(), BencodeView::Int(1))]),
        ));
        assert(crate::bencode::bview_pairs(outer@) =~= seq![
            (key_m(), BencodeView::Dict(seq![(key_ut_metadata(), BencodeView::Int(1))])),
        ]);
        assert(r@ == ExtensionView::Handshake(
            BencodeView::Dict(
                seq![
                    (key_m(), BencodeView::Dict(seq![(key_ut_metadata(), BencodeView::Int(1))])),
                ],
            ),
        ));
    }
    r
}

impl Extension {
    /// The metadata number this frame names: from the "m" map of a
    /// handshake, or the number the frame carries.
    pub fn metadata_ext_id(&self) -> (r: Option<u8>)
        ensures
            r == metadata_ext_id_spec(self@),
    {
        match self {
            Extension::Handshake(d) => {
                let entries = match d {
                    Bencode::Dict(entries) => entries,
                    _ => {
                        return None;
                    },
                };
                let mk = m_key();
                let m_val = match crate::bencode::lookup_in(entries, mk.as_slice()) {
                    Some(v) => v,
                    None => {
                        return None;
                    },
                };
                let m_entries = match m_val {
                    Bencode::Dict(m_entries) => m_entries,
                    _ => {
                        return None;
                    },
                };
                let uk = ut_metadata_key();
                match crate::bencode::lookup_in(m_entries, uk.as_slice()) {
                    Some(Bencode::Int(i)) => Some(*i as u8),
                    _ => None,
                }
            },
            Extension::RequestMetadata { ext_id, .. } => Some(*ext_id),
            Extension::Metadata { ext_id, .. } => Some(*ext_id),
            Extension::Rejected { ext_id, .. } => Some(*ext_id),
        }
    }

    /// The wire frame: length prefix, envelope ID 20, the extended ID,
    /// the bencoded dictionary, and for metadata frames the raw bytes.
    pub fn as_bytes(&self) -> (r: Vec<u8>)
        requires
            ext_body(self@).len() + 2 <= u32::MAX,
        ensures
            r@ == ext_frame(self@),
    {
        let mut body_bytes: Vec<u8> = Vec::new();
        let ext_id: u8;
        match self {
            Extension::Handshake(d) => {
                let c = d.canonicalize();
                encode_into(&c, &mut body_bytes);
                ext_id = 0;
            },
            Extension::RequestMetadata { ext_id: e, piece } => {
                let dict = build_request_dict(0, *piece);
                encode_into(&dict, &mut body_bytes);
                ext_id = *e;
            },
            Extension::Metadata { ext_id: e, piece, data } => {
                let dict = build_metadata_dict(*piece, data.len() as i64);
                encode_into(&dict, &mut body_bytes);
                ext_id = *e;
            },
            Extension::Rejected { ext_id: e, piece } => {
                let dict = build_request_dict(2, *piece);
                encode_into(&dict, &mut body_bytes);
                ext_id = *e;
            },
        }
        match self {
            Extension::Metadata { data, .. } => {
                let mut tail = crate::message::clone_bytes(data);
                body_bytes.append(&mut tail);
            },
            _ => {},
        }
        assert(body_bytes@ == ext_body(self@));
        let mut out: Vec<u8> = Vec::new();
        push_u32_be(&mut out, (body_bytes.len() + 2) as u32);
        out.push(20);
        out.push(ext_id);
        out.append(&mut body_bytes);
        assert(out@ =~= ext_frame(self@));
        out
    }
}

/// The `{ "msg_type": t, "piece": n }` dictionary.
fn build_request_dict(t: i64, piece: u32) -> (r: Bencode)
    ensures
        t == 0 ==> r@ == request_dict(piece),
        t == 2 ==> r@ == rejected_dict(piece),
{
    let mut entries: Vec<(Vec<u8>, Bencode)> = Vec::new();
    entries.push((msg_type_key(), Bencode::Int(t)));
    entries.push((piece_key(), Bencode::Int(piece as i64)));
    let r = Bencode::Dict(entries);
    proof {
        reveal_with_fuel(crate::bencode::bview, 3);
        crate::bencode::lemma_bview_pairs_props(entries@);
        assert(entries@.len() == 2);
        assert(entries@[0].0@ == key_msg_type());
        assert(entries@[1].0@ == key_piece());
        assert(crate::bencode::bview(entries@[0].1) == BencodeView::Int(t));
        assert(crate::bencode::bview(entries@[1].1) == BencodeView::Int(piece as i64));
        assert(crate::bencode::bview_pairs(entries@)[0] == (key_msg_type(), BencodeView::Int(t)));
        assert(crate::bencode::bview_pairs(entries@)[1] == (
            key_piece(),
            BencodeView::Int(piece as i64),
        ));
        if t == 0 {
            assert(crate::bencode::bview_pairs(entries@) =~= seq![
                (key_msg_type(), BencodeView::Int(0)),
                (key_piece(), BencodeView::Int(piece as i64)),
            ]);
            assert(r@ == request_dict(piece));
        }
        if t == 2 {
            assert(crate::bencode::bview_pairs(entries@) =~= seq![
                (key_msg_type(), BencodeView::Int(2)),
                (key_piece(), BencodeView::Int(piece as i64)),
            ]);
            assert(r@ == rejected_dict(piece));
        }
    }
    r
}

/// The `{ "msg_type": 1, "piece": n, "total_size": s }` dictionary.
fn build_metadata_dict(piece: u32, total: i64) -> (r: Bencode)
    ensures
        r@ == metadata_dict(piece, total as int),
{
    let mut entries: Vec<(Vec<u8>, Bencode)> = Vec::new();
    entries.push((msg_type_key(), Bencode::Int(1)));
    entries.push((piece_key(), Bencode::Int(piece as i64)));
    entries.push((total_size_key(), Bencode::Int(total)));
    let r = Bencode::Dict(entries);
    proof {
        reveal_with_fuel(crate::bencode::bview, 3);
        crate::bencode::lemma_bview_pairs_props(entries@);
        assert(crate::bencode::bview_pairs(entries@)[0] == (key_msg_type(), BencodeView::Int(1)));
        assert(crate::bencode::bview_pairs(entries@)[1] == (
            key_piece(),
            BencodeView::Int(piece as i64),
        ));
        assert(crate::bencode::bview_pairs(entries@)[2] == (
            key_total_size(),
            BencodeView::Int(total),
        ));
        assert(crate::bencode::bview_pairs(entries@) =~= seq![
            (key_msg_type(), BencodeView::Int(1)),
            (key_piece(), BencodeView::Int(piece as i64)),
            (key_total_size(), BencodeView::Int((total as int) as i64)),
        ]);
        assert(r@ == metadata_dict(piece, total as int));
    }
    r
}

/// What decoding an extension payload yields.  The payload starts at the
/// envelope ID 20; the handshake is any bencode value under extended ID
/// zero, and other extended IDs carry a dictionary that names its
/// message type and piece.
pub open spec fn parse_ext(b: Seq<u8>) -> Result<ExtensionView, BitTorrentError> {
    if b.len() < 2 {
        Err(BitTorrentError::MalformedFrame)
    } else if b[0] != 20 {
        Err(BitTorrentError::MalformedFrame)
    } else {
        let ext_id = b[1];
        match parse_at(b, 2) {
            None => Err(BitTorrentError::BencodeMalformed),
            Some((v, np)) => if ext_id == 0 {
                Ok(ExtensionView::Handshake(v))
            } else {
                match v {
                    BencodeView::Dict(d) => {
                        let mt = dict_lookup(d, key_msg_type());
                        let pc = dict_lookup(d, key_piece());
                        match (mt, pc) {
                            (Some(BencodeView::Int(t)), Some(BencodeView::Int(p))) => {
                                if t == 0 {
                                    Ok(
                                        ExtensionView::RequestMetadata {
                                            ext_id,
                                            piece: p as u32,
                                        },
                                    )
                                } else if t == 1 {
                                    match dict_lookup(d, key_total_size()) {
                                        Some(BencodeView::Int(ts)) => if 0 <= ts && np + ts
                                            <= b.len() {
                                            Ok(
                                                ExtensionView::Metadata {
                                                    ext_id,
                                                    piece: p as u32,
                                                    data: b.subrange(np, np + ts),
                                                },
                                            )
                                        } else {
                                            Err(BitTorrentError::MalformedFrame)
                                        },
                                        _ => Err(BitTorrentError::MalformedFrame),
                                    }
                                } else if t == 2 {
                                    Ok(ExtensionView::Rejected { ext_id, piece: p as u32 })
                                } else {
                                    Err(BitTorrentError::UnknownMessage)
                                }
                            },
                            _ => Err(BitTorrentError::MalformedFrame),
                        }
                    },
                    _ => Err(BitTorrentError::BencodeUnexpectedKind),
                }
            },
        }
    }
}

impl Extension {
    /// Decodes one extension payload, exactly as `parse_ext` reads it.
    pub fn from_bytes(bytes: &[u8]) -> (r: Result<Extension, BitTorrentError>)
        ensures
            match r {
                Ok(e) => parse_ext(bytes@) == Ok::<ExtensionView, BitTorrentError>(e@),
                Err(e) => parse_ext(bytes@) == Err::<ExtensionView, BitTorrentError>(e),
            },
    {
        let blen = bytes.len();
        if blen < 2 {
            return Err(BitTorrentError::MalformedFrame);
        }
        if bytes[0] != 20 {
            return Err(BitTorrentError::MalformedFrame);
        }
        let ext_id = bytes[1];
        let (value, used) = match crate::bencode::parse_value_at(bytes, 2) {
            Ok(x) => x,
            Err(e) => {
                return Err(e);
            },
        };
        if ext_id == 0 {
            return Ok(Extension::Handshake(value));
        }
        let entries = match &value {
            Bencode::Dict(entries) => entries,
            _ => {
                return Err(BitTorrentError::BencodeUnexpectedKind);
            },
        };
        let mtk = msg_type_key();
        let pck = piece_key();
        let t: i64 = match crate::bencode::lookup_in(entries, mtk.as_slice()) {
            Some(Bencode::Int(t)) => *t,
            _ => {
                return Err(BitTorrentError::MalformedFrame);
            },
        };
        let p: i64 = match crate::bencode::lookup_in(entries, pck.as_slice()) {
            Some(Bencode::Int(p)) => *p,
            _ => {
                return Err(BitTorrentError::MalformedFrame);
            },
        };
        if t == 0 {
            Ok(Extension::RequestMetadata { ext_id, piece: p as u32 })
        } else if t == 1 {
            let tsk = total_size_key();
            let ts: i64 = match crate::bencode::lookup_in(entries, tsk.as_slice()) {
                Some(Bencode::Int(ts)) => *ts,
                _ => {
                    return Err(BitTorrentError::MalformedFrame);
                },
            };
            if ts < 0 {
                return Err(BitTorrentError::MalformedFrame);
            }
            if (ts as u128) > (blen as u128) - (used as u128) {
                return Err(BitTorrentError::MalformedFrame);
            }
            let data = vstd::slice::slice_to_vec(
                vstd::slice::slice_subrange(bytes, used, used + (ts as usize)),
            );
            Ok(Extension::Metadata { ext_id, piece: p as u32, data })
        } else if t == 2 {
            Ok(Extension::Rejected { ext_id, piece: p as u32 })
        } else {
            Err(BitTorrentError::UnknownMessage)
        }
    }
}

} // verus!
