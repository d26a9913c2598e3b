//! Magnet links: the info-hash, display name and tracker carried in a
//! `magnet:?` URI's query string.

use vstd::prelude::*;
use vstd::string::StringSliceAdditionalSpecFns;

use crate::bytes20::Bytes20;
use crate::error::BitTorrentError;
use crate::hexbytes::{hex_decoded, hex_text_ok};

verus! {

/// What the outside form decoder reads out of a query string: its
/// key-value pairs, percent-decoding applied, in order.
pub uninterp spec fn form_pairs_of(s: Seq<u8>) -> Seq<(Seq<u8>, Seq<u8>)>;

/// Whether the outside form decoder accepts a query string at all; like
/// the pairs themselves, this depends on the input alone.
pub uninterp spec fn form_parses(s: Seq<u8>) -> bool;

/// Relies on serde_urlencoded::from_bytes: the decoded key-value pairs
/// of the query string, in order, depending on the input alone; its
/// acceptance is named `form_parses`.
#[verifier::external_body]
fn query_pairs(s: &[u8]) -> (r: Option<Vec<(Vec<u8>, Vec<u8>)>>)
    ensures
        r is Some <==> form_parses(s@),
        r is Some ==> r->0@.map_values(|p: (Vec<u8>, Vec<u8>)| (p.0@, p.1@)) == form_pairs_of(s@),
{
    match serde_urlencoded::from_bytes::<Vec<(String, String)>>(s) {
        Ok(v) => Some(v.into_iter().map(|(a, b)| (a.into_bytes(), b.into_bytes())).collect()),
        Err(_) => None,
    }
}

/// The key "xt".
pub open spec fn key_xt() -> Seq<u8> {
    seq![0x78u8, 0x74]
}

/// The key "dn".
pub open spec fn key_dn() -> Seq<u8> {
    seq![0x64u8, 0x6e]
}

/// The key "tr".
pub open spec fn key_tr() -> Seq<u8> {
    seq![0x74u8, 0x72]
}

/// The prefix "urn:btih:".
pub open spec fn urn_btih() -> Seq<u8> {
    seq![0x75u8, 0x72, 0x6e, 0x3a, 0x62, 0x74, 0x69, 0x68, 0x3a]
}

/// The prefix "magnet:?".
pub open spec fn magnet_prefix() -> Seq<u8> {
    seq![0x6du8, 0x61, 0x67, 0x6e, 0x65, 0x74, 0x3a, 0x3f]
}

/// The value under a key, the last occurrence winning as a map insert
/// would have it.
pub open spec fn last_value(pairs: Seq<(Seq<u8>, Seq<u8>)>, k: Seq<u8>) -> Option<Seq<u8>>
    decreases pairs.len(),
{
    if pairs.len() == 0 {
        None
    } else if pairs.last().0 == k {
        Some(pairs.last().1)
    } else {
        last_value(pairs.drop_last(), k)
    }
}

/// What a magnet URI's decoded pairs give: the 20-byte info-hash from
/// `xt`, and the optional name and tracker.
pub open spec fn magnet_of_pairs(pairs: Seq<(Seq<u8>, Seq<u8>)>) -> Option<
    (Seq<u8>, Option<Seq<u8>>, Option<Seq<u8>>),
> {
    match last_value(pairs, key_xt()) {
        None => None,
        Some(xt) => if xt.len() >= 9 && xt.subrange(0, 9) == urn_btih() {
            let hexpart = xt.skip(9);
            if hex_text_ok(hexpart) && hex_decoded(hexpart).len() == 20 {
                Some(
                    (hex_decoded(hexpart), last_value(pairs, key_dn()), last_value(
                        pairs,
                        key_tr(),
                    )),
                )
            } else {
                None
            }
        } else {
            None
        },
    }
}

/// A parsed magnet link.
#[derive(Debug)]
pub struct MagnetLink {
    info_hash: Bytes20,
    name: Option<Vec<u8>>,
    tracker: Option<Vec<u8>>,
}

impl MagnetLink {
    /// The parts, for contracts.
    pub closed spec fn parts(&self) -> (Seq<u8>, Option<Seq<u8>>, Option<Seq<u8>>) {
        (
            self.info_hash@,
            match self.name {
                Some(n) => Some(n@),
                None => None,
            },
            match self.tracker {
                Some(t) => Some(t@),
                None => None,
            },
        )
    }

    /// The torrent's 20-byte identity.
    pub fn info_hash(&self) -> (r: Bytes20)
        ensures
            r@ == self.parts().0,
    {
        self.info_hash
    }

    /// The display name, when the link carries one.
    pub fn name(&self) -> (r: Option<&Vec<u8>>)
        ensures
            match r {
                Some(n) => self.parts().1 == Some(n@),
                None => self.parts().1 is None,
            },
    {
        match &self.name {
            Some(n) => Some(n),
            None => None,
        }
    }

    /// The tracker URL, when the link carries one.
    pub fn tracker(&self) -> (r: Option<&Vec<u8>>)
        ensures
            match r {
                Some(t) => self.parts().2 == Some(t@),
                None => self.parts().2 is None,
            },
    {
        match &self.tracker {
            Some(t) => Some(t),
            None => None,
        }
    }

    /// Builds a link from decoded query pairs: succeeds exactly when an
    /// `xt` names a well-formed `urn:btih:` hash of twenty bytes.
    pub fn from_pairs(pairs: &Vec<(Vec<u8>, Vec<u8>)>) -> (r: Result<MagnetLink, BitTorrentError>)
        ensures
            ({
                let pv = pairs@.map_values(|p: (Vec<u8>, Vec<u8>)| (p.0@, p.1@));
                match r {
                    Ok(m) => magnet_of_pairs(pv) == Some(m.parts()),
                    Err(e) => magnet_of_pairs(pv) is None && e
                        == BitTorrentError::InvalidMagnetLink,
                }
            }),
    {
        let ghost pv = pairs@.map_values(|p: (Vec<u8>, Vec<u8>)| (p.0@, p.1@));
        let xt = match find_last_pair(pairs, 0x78, 0x74) {
            Some(i) => &pairs[i].1,
            None => {
                return Err(BitTorrentError::InvalidMagnetLink);
            },
        };
        if xt.len() < 9 {
            return Err(BitTorrentError::InvalidMagnetLink);
        }
        let prefix = vstd::slice::slice_subrange(xt.as_slice(), 0, 9);
        let is_urn = crate::bencode::bytes_eq(
            prefix,
            urn_btih_bytes().as_slice(),
        );
        if !is_urn {
            return Err(BitTorrentError::InvalidMagnetLink);
        }
        let hexpart = vstd::slice::slice_subrange(xt.as_slice(), 9, xt.len());
        assert(hexpart@ =~= xt@.skip(9));
        let decoded = match crate::hexbytes::decode_hex(hexpart) {
            Some(d) => d,
            None => {
                return Err(BitTorrentError::InvalidMagnetLink);
            },
        };
        let info_hash = match Bytes20::from_vec(&decoded) {
            Ok(h) => h,
            Err(_) => {
                return Err(BitTorrentError::InvalidMagnetLink);
            },
        };
        let name = match find_last_pair(pairs, 0x64, 0x6e) {
            Some(i) => Some(crate::message::clone_bytes(&pairs[i].1)),
            None => None,
        };
        let tracker = match find_last_pair(pairs, 0x74, 0x72) {
            Some(i) => Some(crate::message::clone_bytes(&pairs[i].1)),
            None => None,
        };
        Ok(MagnetLink { info_hash, name, tracker })
    }

    /// Parses a magnet URI.  The text must open with `magnet:?` and its
    /// query must decode; the pairs then decide, as `from_pairs` says.
    /// Fails exactly when one of those steps does.
    pub fn from_str(s: &str) -> (r: Result<MagnetLink, BitTorrentError>)
        ensures
            ({
                let b = s.spec_bytes();
                let good = b.len() >= 8 && b.subrange(0, 8) == magnet_prefix() && form_parses(
                    b.skip(8),
                ) && magnet_of_pairs(form_pairs_of(b.skip(8))) is Some;
                &&& (r is Ok <==> good)
                &&& (r is Ok ==> magnet_of_pairs(form_pairs_of(b.skip(8))) == Some(
                    r->Ok_0.parts(),
                ))
                &&& (r is Err ==> r->Err_0 == BitTorrentError::InvalidMagnetLink)
            }),
    {
        let bytes = s.as_bytes();
        if bytes.len() < 8 {
            return Err(BitTorrentError::InvalidMagnetLink);
        }
        let prefix = vstd::slice::slice_subrange(bytes, 0, 8);
        if !crate::bencode::bytes_eq(prefix, magnet_prefix_bytes().as_slice()) {
            return Err(BitTorrentError::InvalidMagnetLink);
        }
        let query = vstd::slice::slice_subrange(bytes, 8, bytes.len());
        assert(query@ =~= s.spec_bytes().skip(8));
        let pairs = match query_pairs(query) {
            Some(p) => p,
            None => {
                return Err(BitTorrentError::InvalidMagnetLink);
            },
        };
        Self::from_pairs(&pairs)
    }
}

/// The position of the last pair whose key is the two given bytes.
fn find_last_pair(pairs: &Vec<(Vec<u8>, Vec<u8>)>, k0: u8, k1: u8) -> (r: Option<usize>)
    ensures
        ({
            let pv = pairs@.map_values(|p: (Vec<u8>, Vec<u8>)| (p.0@, p.1@));
            let key = seq![k0, k1];
            match r {
                Some(i) => i < pairs@.len() && pairs@[i as int].0@ == key && last_value(pv, key)
                    == Some(pairs@[i as int].1@),
                None => last_value(pv, key) is None,
            }
        }),
{
    let ghost pv = pairs@.map_values(|p: (Vec<u8>, Vec<u8>)| (p.0@, p.1@));
    let ghost key: Seq<u8> = seq![k0, k1];
    let mut keyv: Vec<u8> = Vec::new();
    keyv.push(k0);
    keyv.push(k1);
    assert(keyv@ =~= key);
    let mut i: usize = pairs.len();
    while i > 0
        invariant
            i <= pairs@.len(),
            pv == pairs@.map_values(|p: (Vec<u8>, Vec<u8>)| (p.0@, p.1@)),
            pv.len() == pairs@.len(),
            keyv@ == key,
            key == seq![k0, k1],
            forall|m: int| i <= m < pv.len() ==> (#[trigger] pv[m]).0 != key,
        decreases i,
    {
        i = i - 1;
        assert(pv[i as int] == (pairs@[i as int].0@, pairs@[i as int].1@));
        if crate::bencode::bytes_eq(pairs[i].0.as_slice(), keyv.as_slice()) {
            proof {
                lemma_last_value_at(pv, key, i as int);
            }
            return Some(i);
        }
    }
    proof {
        lemma_last_value_none(pv, key);
    }
    None
}

proof fn lemma_last_value_at(pairs: Seq<(Seq<u8>, Seq<u8>)>, k: Seq<u8>, i: int)
    requires
        0 <= i < pairs.len(),
        pairs[i].0 == k,
        forall|m: int| i < m < pairs.len() ==> (#[trigger] pairs[m]).0 != k,
    ensures
        last_value(pairs, k) == Some(pairs[i].1),
    decreases pairs.len(),
{
    if i < pairs.len() - 1 {
        assert(pairs.drop_last()[i] == pairs[i]);
        lemma_last_value_at(pairs.drop_last(), k, i);
    }
}

proof fn lemma_last_value_none(pairs: Seq<(Seq<u8>, Seq<u8>)>, k: Seq<u8>)
    requires
        forall|m: int| 0 <= m < pairs.len() ==> (#[trigger] pairs[m]).0 != k,
    ensures
        last_value(pairs, k) is None,
    decreases pairs.len(),
{
    if pairs.len() > 0 {
        lemma_last_value_none(pairs.drop_last(), k);
    }
}

/// The bytes "urn:btih:".
fn urn_btih_bytes() -> (r: Vec<u8>)
    ensures
        r@ == urn_btih(),
{
    let mut v: Vec<u8> = Vec::new();
    v.push(0x75);
    v.push(0x72);
    v.push(0x6e);
    v.push(0x3a);
    v.push(0x62);
    v.push(0x74);
    v.push(0x69);
    v.push(0x68);
    v.push(0x3a);
    assert(v@ =~= urn_btih());
    v
}

/// The bytes "magnet:?".
fn magnet_prefix_bytes() -> (r: Vec<u8>)
    ensures
        r@ == magnet_prefix(),
{
    let mut v: Vec<u8> = Vec::new();
    v.push(0x6d);
    v.push(0x61);
    v.push(0x67);
    v.push(0x6e);
    v.push(0x65);
    v.push(0x74);
    v.push(0x3a);
    v.push(0x3f);
    assert(v@ =~= magnet_prefix());
    v
}

} // verus!
