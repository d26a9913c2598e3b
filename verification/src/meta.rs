//! Torrent metadata: the `info` dictionary, its hash, and piece sizing.

use vstd::prelude::*;

use crate::bencode::{benc, dict_lookup, encode_into, Bencode, BencodeView};
use crate::bytes20::{sha1_of, Bytes20};
use crate::error::BitTorrentError;

verus! {

/// The key "announce".
pub open spec fn key_announce() -> Seq<u8> {
    seq![0x61u8, 0x6e, 0x6e, 0x6f, 0x75, 0x6e, 0x63, 0x65]
}

/// The key "length".
pub open spec fn key_length() -> Seq<u8> {
    seq![0x6cu8, 0x65, 0x6e, 0x67, 0x74, 0x68]
}

/// The key "name".
pub open spec fn key_name() -> Seq<u8> {
    seq![0x6eu8, 0x61, 0x6d, 0x65]
}

/// The key "piece length".
pub open spec fn key_piece_length() -> Seq<u8> {
    seq![0x70u8, 0x69, 0x65, 0x63, 0x65, 0x20, 0x6c, 0x65, 0x6e, 0x67, 0x74, 0x68]
}

/// The key "pieces".
pub open spec fn key_pieces() -> Seq<u8> {
    seq![0x70u8, 0x69, 0x65, 0x63, 0x65, 0x73]
}

/// The key "info".
pub open spec fn key_info() -> Seq<u8> {
    seq![0x69u8, 0x6e, 0x66, 0x6f]
}

/// A torrent's `info` dictionary: piece size, the run of piece hashes,
/// the suggested name, and the total content length.
#[derive(Debug, PartialEq)]
pub struct Info {
    pub piece_length: u32,
    pub pieces: Bencode,
    pub name: Vec<u8>,
    pub length: u64,
}

/// The mathematical shape of an `info` dictionary.
#[verifier::ext_equal]
pub struct InfoView {
    pub piece_length: u32,
    pub pieces: BencodeView,
    pub name: Seq<u8>,
    pub length: u64,
}

impl View for Info {
    type V = InfoView;

    open spec fn view(&self) -> InfoView {
        InfoView {
            piece_length: self.piece_length,
            pieces: self.pieces@,
            name: self.name@,
            length: self.length,
        }
    }
}

/// The canonical dictionary an `info` value encodes as: its four keys in
/// sorted order.
pub open spec fn info_dict(v: InfoView) -> BencodeView
    recommends
        v.pieces is Str,
{
    BencodeView::Dict(
        seq![
            (key_length(), BencodeView::Int(v.length as i64)),
            (key_name(), BencodeView::Str(v.name)),
            (key_piece_length(), BencodeView::Int(v.piece_length as i64)),
            (key_pieces(), v.pieces),
        ],
    )
}

/// The `info` fields a bencode value yields, when it is a dictionary
/// holding all four under their keys with workable ranges.
pub open spec fn info_fields(v: BencodeView) -> Option<InfoView> {
    match v {
        BencodeView::Dict(d) => {
            let pl = dict_lookup(d, key_piece_length());
            let ps = dict_lookup(d, key_pieces());
            let nm = dict_lookup(d, key_name());
            let ln = dict_lookup(d, key_length());
            if pl matches Some(BencodeView::Int(pli)) && 0 <= pli <= u32::MAX && (
            ps matches Some(BencodeView::Str(_))) && (nm matches Some(BencodeView::Str(_))) && (
            ln matches Some(BencodeView::Int(lni)) && lni >= 0) {
                Some(
                    InfoView {
                        piece_length: pl->0->Int_0 as u32,
                        pieces: ps->0,
                        name: nm->0->Str_0,
                        length: ln->0->Int_0 as u64,
                    },
                )
            } else {
                None
            }
        },
        _ => None,
    }
}

impl Info {
    /// The hashes run is a byte string, and the lengths fit the encoder.
    pub open spec fn wf(&self) -> bool {
        &&& self@.pieces is Str
        &&& self@.length <= i64::MAX
    }

    /// The piece hashes, twenty bytes each, in piece order; a trailing
    /// fragment shorter than a hash is ignored.
    pub fn piece_hashes(&self) -> (r: Result<Vec<Bytes20>, BitTorrentError>)
        ensures
            r is Ok <==> self@.pieces is Str,
            match r {
                Ok(v) => {
                    let raw = self@.pieces->Str_0;
                    &&& v@.len() == raw.len() / 20
                    &&& forall|i: int|
                        0 <= i < v@.len() ==> (#[trigger] v@[i])@ == raw.subrange(
                            20 * i,
                            20 * i + 20,
                        )
                },
                Err(e) => e == BitTorrentError::BencodeUnexpectedKind,
            },
    {
        let raw = match &self.pieces {
            Bencode::Str(raw) => raw,
            _ => {
                return Err(BitTorrentError::BencodeUnexpectedKind);
            },
        };
        let total = raw.len();
        let count = total / 20;
        let mut out: Vec<Bytes20> = Vec::new();
        let mut i: usize = 0;
        while i < count
            invariant
                i <= count,
                total == raw@.len(),
                count == total / 20,
                raw@ == self@.pieces->Str_0,
                out@.len() == i,
                forall|j: int|
                    0 <= j < i ==> (#[trigger] out@[j])@ == raw@.subrange(20 * j, 20 * j + 20),
            decreases count - i,
        {
            proof {
                assert(20 * (i as int) + 20 <= 20 * (count as int));
                assert(20 * (count as int) <= total as int);
            }
            let chunk = vstd::slice::slice_subrange(raw.as_slice(), 20 * i, 20 * i + 20);
            let h = Bytes20::from_slice(chunk);
            proof {
                assert(chunk@.subrange(0, 20) =~= raw@.subrange(
                    20 * i as int,
                    20 * i as int + 20,
                ));
            }
            out.push(h);
            i = i + 1;
        }
        Ok(out)
    }

    /// How many whole piece hashes the run holds.
    pub fn num_pieces(&self) -> (r: Result<usize, BitTorrentError>)
        ensures
            r is Ok <==> self@.pieces is Str,
            r is Ok ==> r->Ok_0 == self@.pieces->Str_0.len() / 20,
    {
        match &self.pieces {
            Bencode::Str(raw) => Ok(raw.len() / 20),
            _ => Err(BitTorrentError::BencodeUnexpectedKind),
        }
    }

    /// Whether the hash at an index equals the given one; false for an
    /// index past the run.
    pub fn match_hash(&self, index: usize, hash: &Bytes20) -> (r: Result<bool, BitTorrentError>)
        ensures
            r is Ok <==> self@.pieces is Str,
            r is Ok ==> r->Ok_0 == {
                let raw = self@.pieces->Str_0;
                index < raw.len() / 20 && raw.subrange(
                    20 * index as int,
                    20 * index as int + 20,
                ) == hash@
            },
    {
        let hashes = match self.piece_hashes() {
            Ok(h) => h,
            Err(e) => {
                return Err(e);
            },
        };
        if index >= hashes.len() {
            return Ok(false);
        }
        let r = hashes[index] == *hash;
        Ok(r)
    }

    /// The canonical encoding of the `info` dictionary.
    pub fn encoded(&self) -> (r: Vec<u8>)
        requires
            self.wf(),
        ensures
            r@ == benc(info_dict(self@)),
    {
        let mut entries: Vec<(Vec<u8>, Bencode)> = Vec::new();
        entries.push((length_key(), Bencode::Int(self.length as i64)));
        entries.push((name_key(), Bencode::Str(crate::message::clone_bytes(&self.name))));
        entries.push((piece_length_key(), Bencode::Int(self.piece_length as i64)));
        entries.push((pieces_key(), crate::bencode::clone_value(&self.pieces)));
        let d = Bencode::Dict(entries);
        proof {
            reveal_with_fuel(crate::bencode::bview, 3);
            crate::bencode::lemma_bview_pairs_props(entries@);
            assert(crate::bencode::bview_pairs(entries@)[0] == (
                key_length(),
                BencodeView::Int(self.length as i64),
            ));
            assert(crate::bencode::bview_pairs(entries@)[1] == (
                key_name(),
                BencodeView::Str(self@.name),
            ));
            assert(crate::bencode::bview_pairs(entries@)[2] == (
                key_piece_length(),
                BencodeView::Int(self.piece_length as i64),
            ));
            assert(crate::bencode::bview_pairs(entries@)[3] == (key_pieces(), self@.pieces));
            assert(crate::bencode::bview_pairs(entries@) =~= info_dict(self@)->Dict_0);
            assert(d@ == info_dict(self@));
        }
        let mut out: Vec<u8> = Vec::new();
        encode_into(&d, &mut out);
        assert(out@ =~= benc(info_dict(self@)));
        out
    }

    /// The torrent's identity: the SHA-1 digest of the canonical `info`
    /// encoding.
    pub fn hash(&self) -> (r: Bytes20)
        requires
            self.wf(),
        ensures
            r@ == sha1_of(benc(info_dict(self@))),
    {
        let bytes = self.encoded();
        Bytes20::sha1_hash(bytes.as_slice())
    }

    /// Reads an `info` dictionary out of a bencode value: exactly the
    /// values `info_fields` names, or nothing when it names none.
    pub fn from_bencode(b: &Bencode) -> (r: Result<Info, BitTorrentError>)
        ensures
            r is Ok <==> info_fields(b@) is Some,
            match r {
                Ok(info) => info@ == info_fields(b@)->0 && info.wf(),
                Err(e) => e == BitTorrentError::BencodeUnexpectedKind,
            },
    {
        let entries = match b {
            Bencode::Dict(entries) => entries,
            _ => {
                return Err(BitTorrentError::BencodeUnexpectedKind);
            },
        };
        let plk = piece_length_key();
        let pl: i64 = match crate::bencode::lookup_in(entries, plk.as_slice()) {
            Some(Bencode::Int(v)) => *v,
            _ => {
                return Err(BitTorrentError::BencodeUnexpectedKind);
            },
        };
        if pl < 0 || pl > 0xffffffffi64 {
            return Err(BitTorrentError::BencodeUnexpectedKind);
        }
        let pk = pieces_key();
        let pieces: Vec<u8> = match crate::bencode::lookup_in(entries, pk.as_slice()) {
            Some(Bencode::Str(v)) => crate::message::clone_bytes(v),
            _ => {
                return Err(BitTorrentError::BencodeUnexpectedKind);
            },
        };
        let nk = name_key();
        let name: Vec<u8> = match crate::bencode::lookup_in(entries, nk.as_slice()) {
            Some(Bencode::Str(v)) => crate::message::clone_bytes(v),
            _ => {
                return Err(BitTorrentError::BencodeUnexpectedKind);
            },
        };
        let lk = length_key();
        let len: i64 = match crate::bencode::lookup_in(entries, lk.as_slice()) {
            Some(Bencode::Int(v)) => *v,
            _ => {
                return Err(BitTorrentError::BencodeUnexpectedKind);
            },
        };
        if len < 0 {
            return Err(BitTorrentError::BencodeUnexpectedKind);
        }
        Ok(
            Info {
                piece_length: pl as u32,
                pieces: Bencode::Str(pieces),
                name,
                length: len as u64,
            },
        )
    }

    /// The byte length of one piece: the declared size for every piece
    /// but the last, and what remains of the file for the last.  Fails
    /// only on an index past the pieces, or when the remainder does not
    /// make sense for the declared sizes.
    pub fn piece_length_at(&self, index: usize) -> (r: Result<u32, BitTorrentError>)
        requires
            self.piece_length > 0,
        ensures
            ({
                let total = self@.length as int;
                let regular = self@.piece_length as int;
                let count = self@.pieces->Str_0.len() / 20;
                let last = total - (count - 1) * regular;
                &&& (r is Ok <==> self@.pieces is Str && index < count && (index < count - 1 || (0
                    <= last <= u32::MAX)))
                &&& (r is Ok ==> r->Ok_0 == if index < count - 1 {
                    regular
                } else {
                    last
                })
            }),
    {
        let count = match self.num_pieces() {
            Ok(c) => c,
            Err(e) => {
                return Err(e);
            },
        };
        if index >= count {
            return Err(BitTorrentError::BencodeUnexpectedKind);
        }
        assert(count >= 1);
        if index < count - 1 {
            Ok(self.piece_length)
        } else {
            let regular = self.piece_length as u128;
            proof {
                assert((count as int - 1) * (self.piece_length as int) <= 0xffffffffffffffff
                    * 0xffffffff) by (nonlinear_arith)
                    requires
                        1 <= count as int <= 0xffffffffffffffff,
                        0 <= self.piece_length as int <= 0xffffffff,
                ;
            }
            let used = (count as u128 - 1) * regular;
            if used > self.length as u128 {
                return Err(BitTorrentError::BencodeUnexpectedKind);
            }
            let last = self.length as u128 - used;
            if last > 0xffffffffu128 {
                return Err(BitTorrentError::BencodeUnexpectedKind);
            }
            Ok(last as u32)
        }
    }
}

/// A whole metainfo file: the tracker URL and the `info` dictionary.
#[derive(Debug, PartialEq)]
pub struct Meta {
    pub announce: Vec<u8>,
    pub info: Info,
}

/// The announce URL and `info` fields a metainfo dictionary yields.
pub open spec fn meta_fields(v: BencodeView) -> Option<(Seq<u8>, InfoView)> {
    match v {
        BencodeView::Dict(d) => {
            let an = dict_lookup(d, key_announce());
            let iv = dict_lookup(d, key_info());
            if an matches Some(BencodeView::Str(_)) && iv is Some && info_fields(iv->0) is Some {
                Some((an->0->Str_0, info_fields(iv->0)->0))
            } else {
                None
            }
        },
        _ => None,
    }
}

impl Meta {
    /// Reads a metainfo file's top-level dictionary: exactly the values
    /// `meta_fields` names, or nothing when it names none.
    pub fn from_bencode(b: &Bencode) -> (r: Result<Meta, BitTorrentError>)
        ensures
            r is Ok <==> meta_fields(b@) is Some,
            match r {
                Ok(m) => m.announce@ == (meta_fields(b@)->0).0 && m.info@ == (meta_fields(b@)->0).1
                    && m.info.wf(),
                Err(e) => e == BitTorrentError::BencodeUnexpectedKind,
            },
    {
        let entries = match b {
            Bencode::Dict(entries) => entries,
            _ => {
                return Err(BitTorrentError::BencodeUnexpectedKind);
            },
        };
        let ak = announce_key();
        let announce: Vec<u8> = match crate::bencode::lookup_in(entries, ak.as_slice()) {
            Some(Bencode::Str(v)) => crate::message::clone_bytes(v),
            _ => {
                return Err(BitTorrentError::BencodeUnexpectedKind);
            },
        };
        let ik = info_key();
        let info_val = match crate::bencode::lookup_in(entries, ik.as_slice()) {
            Some(v) => v,
            None => {
                return Err(BitTorrentError::BencodeUnexpectedKind);
            },
        };
        let info = match Info::from_bencode(info_val) {
            Ok(i) => i,
            Err(e) => {
                return Err(e);
            },
        };
        Ok(Meta { announce, info })
    }
}

/// Joins metadata pieces in order and checks the whole against the
/// expected info-hash.
pub fn assemble_metadata(pieces: &Vec<Vec<u8>>, expected: &Bytes20) -> (r: Result<
    Vec<u8>,
    BitTorrentError,
>)
    ensures
        ({
            let whole = pieces@.map_values(|p: Vec<u8>| p@).flatten();
            match r {
                Ok(v) => v@ == whole && sha1_of(whole) == expected@,
                Err(e) => sha1_of(whole) != expected@ && e
                    == BitTorrentError::MetadataHashMismatch,
            }
        }),
{
    let ghost parts = pieces@.map_values(|p: Vec<u8>| p@);
    let mut out: Vec<u8> = Vec::new();
    let mut i: usize = 0;
    proof {
        assert(parts.take(0) =~= Seq::<Seq<u8>>::empty());
        assert(parts.take(0).flatten() =~= Seq::<u8>::empty());
        assert(out@ =~= parts.take(0).flatten());
    }
    while i < pieces.len()
        invariant
            i <= pieces@.len(),
            parts == pieces@.map_values(|p: Vec<u8>| p@),
            out@ == parts.take(i as int).flatten(),
        decreases pieces@.len() - i,
    {
        let mut chunk = crate::message::clone_bytes(&pieces[i]);
        out.append(&mut chunk);
        proof {
            assert(parts.take(i as int + 1).drop_last() =~= parts.take(i as int));
            assert(parts.take(i as int + 1).last() == parts[i as int]);
            parts.take(i as int + 1).lemma_flatten_and_flatten_alt_are_equivalent();
            parts.take(i as int).lemma_flatten_and_flatten_alt_are_equivalent();
            assert(parts.take(i as int + 1).flatten_alt() == parts.take(
                i as int,
            ).flatten_alt() + parts[i as int]);
        }
        i = i + 1;
    }
    proof {
        assert(parts.take(pieces@.len() as int) =~= parts);
    }
    let digest = Bytes20::sha1_hash(out.as_slice());
    if digest == *expected {
        Ok(out)
    } else {
        Err(BitTorrentError::MetadataHashMismatch)
    }
}

fn announce_key() -> (r: Vec<u8>)
    ensures
        r@ == key_announce(),
{
    let mut v: Vec<u8> = Vec::new();
    v.push(0x61);
    v.push(0x6e);
    v.push(0x6e);
    v.push(0x6f);
    v.push(0x75);
    v.push(0x6e);
    v.push(0x63);
    v.push(0x65);
    assert(v@ =~= key_announce());
    v
}

fn length_key() -> (r: Vec<u8>)
    ensures
        r@ == key_length(),
{
    let mut v: Vec<u8> = Vec::new();
    v.push(0x6c);
    v.push(0x65);
    v.push(0x6e);
    v.push(0x67);
    v.push(0x74);
    v.push(0x68);
    assert(v@ =~= key_length());
    v
}

fn name_key() -> (r: Vec<u8>)
    ensures
        r@ == key_name(),
{
    let mut v: Vec<u8> = Vec::new();
    v.push(0x6e);
    v.push(0x61);
    v.push(0x6d);
    v.push(0x65);
    assert(v@ =~= key_name());
    v
}

fn piece_length_key() -> (r: Vec<u8>)
    ensures
        r@ == key_piece_length(),
{
    let mut v: Vec<u8> = Vec::new();
    v.push(0x70);
    v.push(0x69);
    v.push(0x65);
    v.push(0x63);
    v.push(0x65);
    v.push(0x20);
    v.push(0x6c);
    v.push(0x65);
    v.push(0x6e);
    v.push(0x67);
    v.push(0x74);
    v.push(0x68);
    assert(v@ =~= key_piece_length());
    v
}

fn pieces_key() -> (r: Vec<u8>)
    ensures
        r@ == key_pieces(),
{
    let mut v: Vec<u8> = Vec::new();
    v.push(0x70);
    v.push(0x69);
    v.push(0x65);
    v.push(0x63);
    v.push(0x65);
    v.push(0x73);
    assert(v@ =~= key_pieces());
    v
}

fn info_key() -> (r: Vec<u8>)
    ensures
        r@ == key_info(),
{
    let mut v: Vec<u8> = Vec::new();
    v.push(0x69);
    v.push(0x6e);
    v.push(0x66);
    v.push(0x6f);
    assert(v@ =~= key_info());
    v
}

} // verus!
