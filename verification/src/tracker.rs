//! The announce request: percent-encoding of the binary info-hash and
//! assembly of the tracker's query string.  Sending is the caller's job.

use vstd::prelude::*;

use crate::bytes20::Bytes20;
use crate::error::BitTorrentError;

verus! {

/// Whether a byte passes into a URL untouched.
pub open spec fn is_unreserved(c: u8) -> bool {
    (0x30 <= c && c <= 0x39) || (0x41 <= c && c <= 0x5a) || (0x61 <= c && c <= 0x7a) || c == 0x2d
        || c == 0x2e || c == 0x5f || c == 0x7e
}

/// The uppercase hexadecimal digit for a value below sixteen.
pub open spec fn up_digit(d: u8) -> u8
    recommends
        d < 16,
{
    if d < 10 {
        (0x30 + d) as u8
    } else {
        (0x41 + d - 10) as u8
    }
}

/// One byte as it stands in a query: itself when unreserved, percent
/// and two uppercase digits otherwise.
pub open spec fn pct_byte(c: u8) -> Seq<u8> {
    if is_unreserved(c) {
        seq![c]
    } else {
        seq![0x25u8, up_digit(c / 16), up_digit(c % 16)]
    }
}

/// A byte run percent-encoded.
pub open spec fn pct(b: Seq<u8>) -> Seq<u8>
    decreases b.len(),
{
    if b.len() == 0 {
        Seq::empty()
    } else {
        pct(b.drop_last()) + pct_byte(b.last())
    }
}

/// Percent-encodes a byte run.
pub fn percent_encode(b: &[u8]) -> (r: Vec<u8>)
    ensures
        r@ == pct(b@),
{
    let mut out: Vec<u8> = Vec::new();
    let mut i: usize = 0;
    proof {
        assert(b@.take(0) =~= Seq::<u8>::empty());
        assert(out@ =~= pct(b@.take(0)));
    }
    while i < b.len()
        invariant
            i <= b@.len(),
            out@ == pct(b@.take(i as int)),
        decreases b@.len() - i,
    {
        let c = b[i];
        if (0x30 <= c && c <= 0x39) || (0x41 <= c && c <= 0x5a) || (0x61 <= c && c <= 0x7a) || c
            == 0x2d || c == 0x2e || c == 0x5f || c == 0x7e {
            out.push(c);
        } else {
            out.push(0x25);
            let hi = c / 16;
            let lo = c % 16;
            out.push(if hi < 10 { 0x30 + hi } else { 0x41 + hi - 10 });
            out.push(if lo < 10 { 0x30 + lo } else { 0x41 + lo - 10 });
        }
        proof {
            assert(b@.take(i as int + 1).drop_last() =~= b@.take(i as int));
            assert(b@.take(i as int + 1).last() == b@[i as int]);
            assert(out@ =~= pct(b@.take(i as int)) + pct_byte(b@[i as int]));
        }
        i = i + 1;
    }
    proof {
        assert(b@.take(b@.len() as int) =~= b@);
    }
    out
}

/// The query text `?info_hash=..&peer_id=..&port=..&uploaded=..
/// &downloaded=..&left=..&compact=..` appended to an announce URL.
pub open spec fn tracker_query(
    url: Seq<u8>,
    info_hash: Seq<u8>,
    peer_id: Seq<u8>,
    port: u16,
    uploaded: u64,
    downloaded: u64,
    left: u64,
    compact: u8,
) -> Seq<u8> {
    url + lit_q_info_hash() + pct(info_hash) + lit_peer_id() + pct(peer_id) + lit_port()
        + crate::bencode::dec_digits(port as nat) + lit_uploaded() + crate::bencode::dec_digits(
        uploaded as nat,
    ) + lit_downloaded() + crate::bencode::dec_digits(downloaded as nat) + lit_left()
        + crate::bencode::dec_digits(left as nat) + lit_compact() + crate::bencode::dec_digits(
        compact as nat,
    )
}

/// The text "?info_hash=".
pub open spec fn lit_q_info_hash() -> Seq<u8> {
    seq![0x3fu8, 0x69, 0x6e, 0x66, 0x6f, 0x5f, 0x68, 0x61, 0x73, 0x68, 0x3d]
}

/// The text "&peer_id=".
pub open spec fn lit_peer_id() -> Seq<u8> {
    seq![0x26u8, 0x70, 0x65, 0x65, 0x72, 0x5f, 0x69, 0x64, 0x3d]
}

/// The text "&port=".
pub open spec fn lit_port() -> Seq<u8> {
    seq![0x26u8, 0x70, 0x6f, 0x72, 0x74, 0x3d]
}

/// The text "&uploaded=".
pub open spec fn lit_uploaded() -> Seq<u8> {
    seq![0x26u8, 0x75, 0x70, 0x6c, 0x6f, 0x61, 0x64, 0x65, 0x64, 0x3d]
}

/// The text "&downloaded=".
pub open spec fn lit_downloaded() -> Seq<u8> {
    seq![0x26u8, 0x64, 0x6f, 0x77, 0x6e, 0x6c, 0x6f, 0x61, 0x64, 0x65, 0x64, 0x3d]
}

/// The text "&left=".
pub open spec fn lit_left() -> Seq<u8> {
    seq![0x26u8, 0x6c, 0x65, 0x66, 0x74, 0x3d]
}

/// The text "&compact=".
pub open spec fn lit_compact() -> Seq<u8> {
    seq![0x26u8, 0x63, 0x6f, 0x6d, 0x70, 0x61, 0x63, 0x74, 0x3d]
}

/// Collects what an announce request needs; the URL, info-hash and the
/// bytes left are required, the rest have standing defaults.
#[derive(Debug, Clone, PartialEq)]
pub struct TrackerRequestBuilder {
    pub url: Option<Vec<u8>>,
    pub info_hash: Option<Bytes20>,
    pub peer_id: Option<Vec<u8>>,
    pub port: Option<u16>,
    pub uploaded: Option<u64>,
    pub downloaded: Option<u64>,
    pub left: Option<u64>,
    pub compact: Option<u8>,
}

impl Default for TrackerRequestBuilder {
    /// Nothing set.
    fn default() -> (r: TrackerRequestBuilder)
        ensures
            r.url is None,
            r.info_hash is None,
            r.peer_id is None,
            r.port is None,
            r.uploaded is None,
            r.downloaded is None,
            r.left is None,
            r.compact is None,
    {
        TrackerRequestBuilder {
            url: None,
            info_hash: None,
            peer_id: None,
            port: None,
            uploaded: None,
            downloaded: None,
            left: None,
            compact: None,
        }
    }
}

impl TrackerRequestBuilder {
    /// Sets the announce URL.
    pub fn url(self, url: Vec<u8>) -> (r: TrackerRequestBuilder)
        ensures
            r == (TrackerRequestBuilder { url: Some(url), ..self }),
    {
        TrackerRequestBuilder { url: Some(url), ..self }
    }

    /// Sets the info-hash.
    pub fn info_hash(self, info_hash: &Bytes20) -> (r: TrackerRequestBuilder)
        ensures
            r == (TrackerRequestBuilder { info_hash: Some(*info_hash), ..self }),
    {
        TrackerRequestBuilder { info_hash: Some(*info_hash), ..self }
    }

    /// Sets how many bytes are still wanted.
    pub fn left(self, left: u64) -> (r: TrackerRequestBuilder)
        ensures
            r == (TrackerRequestBuilder { left: Some(left), ..self }),
    {
        TrackerRequestBuilder { left: Some(left), ..self }
    }

    /// The full announce URL with its query string.  Requires the URL,
    /// the info-hash and `left`; every other field falls back to its
    /// default: a fixed peer ID, port 6881, nothing moved, compact form.
    pub fn build_query(&self) -> (r: Result<Vec<u8>, BitTorrentError>)
        ensures
            r is Ok <==> self.url is Some && self.info_hash is Some && self.left is Some,
            r is Ok ==> r->Ok_0@ == tracker_query(
                self.url->0@,
                self.info_hash->0@,
                match self.peer_id {
                    Some(p) => p@,
                    None => default_peer_id(),
                },
                match self.port {
                    Some(p) => p,
                    None => 6881,
                },
                match self.uploaded {
                    Some(u) => u,
                    None => 0,
                },
                match self.downloaded {
                    Some(d) => d,
                    None => 0,
                },
                self.left->0,
                match self.compact {
                    Some(c) => c,
                    None => 1,
                },
            ),
            r is Err ==> r->Err_0 == BitTorrentError::TrackerHttpFailed,
    {
        let url = match &self.url {
            Some(u) => u,
            None => {
                return Err(BitTorrentError::TrackerHttpFailed);
            },
        };
        let ih = match &self.info_hash {
            Some(h) => h,
            None => {
                return Err(BitTorrentError::TrackerHttpFailed);
            },
        };
        let left = match self.left {
            Some(l) => l,
            None => {
                return Err(BitTorrentError::TrackerHttpFailed);
            },
        };
        let mut out = crate::message::clone_bytes(url);
        push_lit_q_info_hash(&mut out);
        let mut enc = percent_encode(ih.as_slice());
        out.append(&mut enc);
        push_lit_peer_id(&mut out);
        let mut pid = match &self.peer_id {
            Some(p) => percent_encode(p.as_slice()),
            None => {
                let d = default_peer_id_bytes();
                percent_encode(d.as_slice())
            },
        };
        out.append(&mut pid);
        push_lit_port(&mut out);
        let port = match self.port {
            Some(p) => p,
            None => 6881,
        };
        crate::bencode::push_plain_digits(&mut out, port as u64);
        push_lit_uploaded(&mut out);
        let uploaded = match self.uploaded {
            Some(u) => u,
            None => 0,
        };
        crate::bencode::push_plain_digits(&mut out, uploaded);
        push_lit_downloaded(&mut out);
        let downloaded = match self.downloaded {
            Some(d) => d,
            None => 0,
        };
        crate::bencode::push_plain_digits(&mut out, downloaded);
        push_lit_left(&mut out);
        crate::bencode::push_plain_digits(&mut out, left);
        push_lit_compact(&mut out);
        let compact = match self.compact {
            Some(c) => c,
            None => 1,
        };
        crate::bencode::push_plain_digits(&mut out, compact as u64);
        proof {
            lemma_default_peer_id_pct();
        }
        assert(out@ =~= tracker_query(
            self.url->0@,
            self.info_hash->0@,
            match self.peer_id {
                Some(p) => p@,
                None => default_peer_id(),
            },
            match self.port {
                Some(p) => p,
                None => 6881,
            },
            match self.uploaded {
                Some(u) => u,
                None => 0,
            },
            match self.downloaded {
                Some(d) => d,
                None => 0,
            },
            left,
            match self.compact {
                Some(c) => c,
                None => 1,
            },
        ));
        Ok(out)
    }
}

/// The fixed fallback peer identifier, twenty digits.
pub open spec fn default_peer_id() -> Seq<u8> {
    seq![
        0x30u8,
        0x31,
        0x32,
        0x33,
        0x34,
        0x35,
        0x36,
        0x37,
        0x38,
        0x39,
        0x30,
        0x31,
        0x32,
        0x33,
        0x34,
        0x35,
        0x36,
        0x37,
        0x38,
        0x39,
    ]
}

/// Digits pass percent-encoding unchanged, so the default peer ID does.
proof fn lemma_default_peer_id_pct()
    ensures
        pct(default_peer_id()) == default_peer_id(),
{
    reveal_with_fuel(pct, 22);
    assert(pct(default_peer_id()) =~= default_peer_id());
}

fn default_peer_id_bytes() -> (r: Vec<u8>)
    ensures
        r@ == default_peer_id(),
{
    let mut v: Vec<u8> = Vec::new();
    let mut round: usize = 0;
    while round < 2
        invariant
            round <= 2,
            v@.len() == 10 * round,
            forall|j: int| 0 <= j < v@.len() ==> v@[j] == 0x30 + (j % 10),
        decreases 2 - round,
    {
        let mut d: u8 = 0;
        while d < 10
            invariant
                d <= 10,
                v@.len() == 10 * round + d,
                round < 2,
                forall|j: int| 0 <= j < v@.len() ==> v@[j] == 0x30 + (j % 10),
            decreases 10 - d,
        {
            v.push(0x30 + d);
            d = d + 1;
        }
        round = round + 1;
    }
    assert(v@ =~= default_peer_id());
    v
}

fn push_lit_q_info_hash(out: &mut Vec<u8>)
    ensures
        final(out)@ == old(out)@ + lit_q_info_hash(),
{
    out.push(0x3f);
    out.push(0x69);
    out.push(0x6e);
    out.push(0x66);
    out.push(0x6f);
    out.push(0x5f);
    out.push(0x68);
    out.push(0x61);
    out.push(0x73);
    out.push(0x68);
    out.push(0x3d);
    assert(out@ =~= old(out)@ + lit_q_info_hash());
}

fn push_lit_peer_id(out: &mut Vec<u8>)
    ensures
        final(out)@ == old(out)@ + lit_peer_id(),
{
    out.push(0x26);
    out.push(0x70);
    out.push(0x65);
    out.push(0x65);
    out.push(0x72);
    out.push(0x5f);
    out.push(0x69);
    out.push(0x64);
    out.push(0x3d);
    assert(out@ =~= old(out)@ + lit_peer_id());
}

fn push_lit_port(out: &mut Vec<u8>)
    ensures
        final(out)@ == old(out)@ + lit_port(),
{
    out.push(0x26);
    out.push(0x70);
    out.push(0x6f);
    out.push(0x72);
    out.push(0x74);
    out.push(0x3d);
    assert(out@ =~= old(out)@ + lit_port());
}

fn push_lit_uploaded(out: &mut Vec<u8>)
    ensures
        final(out)@ == old(out)@ + lit_uploaded(),
{
    out.push(0x26);
    out.push(0x75);
    out.push(0x70);
    out.push(0x6c);
    out.push(0x6f);
    out.push(0x61);
    out.push(0x64);
    out.push(0x65);
    out.push(0x64);
    out.push(0x3d);
    assert(out@ =~= old(out)@ + lit_uploaded());
}

fn push_lit_downloaded(out: &mut Vec<u8>)
    ensures
        final(out)@ == old(out)@ + lit_downloaded(),
{
    out.push(0x26);
    out.push(0x64);
    out.push(0x6f);
    out.push(0x77);
    out.push(0x6e);
    out.push(0x6c);
    out.push(0x6f);
    out.push(0x61);
    out.push(0x64);
    out.push(0x65);
    out.push(0x64);
    out.push(0x3d);
    assert(out@ =~= old(out)@ + lit_downloaded());
}

fn push_lit_left(out: &mut Vec<u8>)
    ensures
        final(out)@ == old(out)@ + lit_left(),
{
    out.push(0x26);
    out.push(0x6c);
    out.push(0x65);
    out.push(0x66);
    out.push(0x74);
    out.push(0x3d);
    assert(out@ =~= old(out)@ + lit_left());
}

fn push_lit_compact(out: &mut Vec<u8>)
    ensures
        final(out)@ == old(out)@ + lit_compact(),
{
    out.push(0x26);
    out.push(0x63);
    out.push(0x6f);
    out.push(0x6d);
    out.push(0x70);
    out.push(0x61);
    out.push(0x63);
    out.push(0x74);
    out.push(0x3d);
    assert(out@ =~= old(out)@ + lit_compact());
}

/// A tracker's decoded announce answer: the poll interval and the peers.
#[derive(Debug, PartialEq)]
pub struct TrackerResponse {
    pub interval: u64,
    pub peers: Vec<crate::peers::Peer>,
}

/// The key "interval".
pub open spec fn key_interval() -> Seq<u8> {
    seq![0x69u8, 0x6e, 0x74, 0x65, 0x72, 0x76, 0x61, 0x6c]
}

/// The key "peers".
pub open spec fn key_peers() -> Seq<u8> {
    seq![0x70u8, 0x65, 0x65, 0x72, 0x73]
}

/// The interval and compact peer run an announce answer yields.
pub open spec fn tracker_fields(v: crate::bencode::BencodeView) -> Option<(i64, Seq<u8>)> {
    match v {
        crate::bencode::BencodeView::Dict(d) => {
            let iv = crate::bencode::dict_lookup(d, key_interval());
            let ps = crate::bencode::dict_lookup(d, key_peers());
            if iv matches Some(crate::bencode::BencodeView::Int(n)) && n >= 0 && (
            ps matches Some(crate::bencode::BencodeView::Str(_))) {
                Some((iv->0->Int_0, ps->0->Str_0))
            } else {
                None
            }
        },
        _ => None,
    }
}

impl TrackerResponse {
    /// Reads an announce answer out of its bencoded dictionary: the
    /// interval, and one peer for each whole six-byte record of the
    /// compact run.
    pub fn from_bencode(b: &crate::bencode::Bencode) -> (r: Result<
        TrackerResponse,
        BitTorrentError,
    >)
        ensures
            r is Ok <==> tracker_fields(b@) is Some,
            match r {
                Ok(t) => {
                    let raw = (tracker_fields(b@)->0).1;
                    &&& t.interval as i64 == (tracker_fields(b@)->0).0
                    &&& t.peers@.len() == raw.len() / 6
                    &&& forall|i: int|
                        0 <= i < t.peers@.len() ==> (#[trigger] t.peers@[i])
                            == (crate::peers::Peer {
                            ip0: raw[6 * i],
                            ip1: raw[6 * i + 1],
                            ip2: raw[6 * i + 2],
                            ip3: raw[6 * i + 3],
                            port: ((raw[6 * i + 4] as int) * 256 + (raw[6 * i + 5] as int)) as u16,
                        })
                },
                Err(e) => e == BitTorrentError::BencodeUnexpectedKind,
            },
    {
        let entries = match b {
            crate::bencode::Bencode::Dict(entries) => entries,
            _ => {
                return Err(BitTorrentError::BencodeUnexpectedKind);
            },
        };
        let ik = interval_key();
        let interval: i64 = match crate::bencode::lookup_in(entries, ik.as_slice()) {
            Some(crate::bencode::Bencode::Int(v)) => *v,
            _ => {
                return Err(BitTorrentError::BencodeUnexpectedKind);
            },
        };
        if interval < 0 {
            return Err(BitTorrentError::BencodeUnexpectedKind);
        }
        let pk = peers_key();
        let peers = match crate::bencode::lookup_in(entries, pk.as_slice()) {
            Some(crate::bencode::Bencode::Str(raw)) => crate::peers::parse_compact_peers(
                raw.as_slice(),
            ),
            _ => {
                return Err(BitTorrentError::BencodeUnexpectedKind);
            },
        };
        Ok(TrackerResponse { interval: interval as u64, peers })
    }
}

fn interval_key() -> (r: Vec<u8>)
    ensures
        r@ == key_interval(),
{
    let mut v: Vec<u8> = Vec::new();
    v.push(0x69);
    v.push(0x6e);
    v.push(0x74);
    v.push(0x65);
    v.push(0x72);
    v.push(0x76);
    v.push(0x61);
    v.push(0x6c);
    assert(v@ =~= key_interval());
    v
}

fn peers_key() -> (r: Vec<u8>)
    ensures
        r@ == key_peers(),
{
    let mut v: Vec<u8> = Vec::new();
    v.push(0x70);
    v.push(0x65);
    v.push(0x65);
    v.push(0x72);
    v.push(0x73);
    assert(v@ =~= key_peers());
    v
}

} // verus!
