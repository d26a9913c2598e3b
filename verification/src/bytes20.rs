//! A 20-octet value: SHA-1 digests, info-hashes and peer IDs.

use vstd::prelude::*;

use crate::error::BitTorrentError;
use crate::hexbytes::hex_of;

verus! {

/// The number of octets in a digest, info-hash or peer ID.
pub const HASH_SIZE: usize = 20;

/// Twenty immutable octets.
#[derive(Clone, Copy, Debug)]
pub struct Bytes20([u8; 20]);

impl View for Bytes20 {
    type V = Seq<u8>;

    closed spec fn view(&self) -> Seq<u8> {
        self.0@
    }
}

/// What the outside SHA-1 digest of a byte run is.  Left unnamed beyond
/// this: nothing in the library depends on the digest's inner structure.
pub uninterp spec fn sha1_of(data: Seq<u8>) -> Seq<u8>;

impl Bytes20 {
    /// The view always holds exactly twenty octets.
    pub proof fn lemma_len(&self)
        ensures
            self@.len() == 20,
    {
    }

    /// Wraps twenty octets as given.
    pub fn new(bytes: [u8; 20]) -> (r: Bytes20)
        ensures
            r@ == bytes@,
    {
        Bytes20(bytes)
    }

    /// Takes the first twenty octets of a longer run.
    pub fn from_slice(s: &[u8]) -> (r: Bytes20)
        requires
            s@.len() >= 20,
        ensures
            r@ == s@.subrange(0, 20),
    {
        let mut a: [u8; 20] = [0u8; 20];
        let mut i: usize = 0;
        while i < 20
            invariant
                i <= 20,
                s@.len() >= 20,
                a@.len() == 20,
                forall|j: int| 0 <= j < i ==> a@[j] == s@[j],
            decreases 20 - i,
        {
            a[i] = s[i];
            i = i + 1;
        }
        assert(a@ =~= s@.subrange(0, 20));
        Bytes20(a)
    }

    /// Accepts a vector of exactly twenty octets, and nothing else.
    pub fn from_vec(v: &Vec<u8>) -> (r: Result<Bytes20, BitTorrentError>)
        ensures
            v@.len() == 20 <==> r is Ok,
            r is Ok ==> r->Ok_0@ == v@,
    {
        if v.len() != 20 {
            return Err(BitTorrentError::BencodeUnexpectedKind);
        }
        let b = Self::from_slice(v.as_slice());
        assert(v@.subrange(0, 20) =~= v@);
        Ok(b)
    }

    /// The octet count, always twenty.
    pub fn len(&self) -> (r: usize)
        ensures
            r == self@.len(),
            r == 20,
    {
        20
    }

    /// Never empty.
    pub fn is_empty(&self) -> (r: bool)
        ensures
            r == false,
    {
        false
    }

    /// The octet at a position.
    pub fn at(&self, i: usize) -> (r: u8)
        requires
            i < 20,
        ensures
            r == self@[i as int],
    {
        self.0[i]
    }

    /// The value as a borrowed byte run.
    pub fn as_slice(&self) -> (r: &[u8])
        ensures
            r@ == self@,
    {
        self.0.as_slice()
    }

    /// The lowercase hexadecimal spelling, forty digits.
    pub fn hex_encoded(&self) -> (r: String)
        ensures
            r@ == hex_of(self@),
    {
        crate::hexbytes::encode_hex(self.0.as_slice())
    }

    /// Relies on sha1::Sha1::digest: twenty octets depending on the input
    /// alone, named `sha1_of` for the contracts built on it.
    #[verifier::external_body]
    pub fn sha1_hash(data: &[u8]) -> (r: Bytes20)
        ensures
            r@ == sha1_of(data@),
            r@.len() == 20,
    {
        let digest = <sha1::Sha1 as sha1::Digest>::digest(data);
        let mut a = [0u8; 20];
        a.copy_from_slice(&digest);
        Bytes20(a)
    }
}

impl PartialEq for Bytes20 {
    fn eq(&self, other: &Bytes20) -> (r: bool) {
        let mut i: usize = 0;
        while i < 20
            invariant
                i <= 20,
                forall|j: int| 0 <= j < i ==> self@[j] == other@[j],
            decreases 20 - i,
        {
            if self.0[i] != other.0[i] {
                assert(self@[i as int] != other@[i as int]);
                return false;
            }
            i = i + 1;
        }
        assert(self@ =~= other@);
        true
    }
}

impl Eq for Bytes20 {

}

impl vstd::std_specs::cmp::PartialEqSpecImpl for Bytes20 {
    open spec fn obeys_eq_spec() -> bool {
        true
    }

    open spec fn eq_spec(&self, other: &Bytes20) -> bool {
        self@ == other@
    }
}

} // verus!
