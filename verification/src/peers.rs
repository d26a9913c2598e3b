//! Peer addresses: IPv4 and port, including the tracker's compact
//! 6-byte form.

use vstd::prelude::*;

use crate::bencode::dec_digits;

verus! {

/// An IPv4 peer address.
#[derive(Clone, Copy, Debug, PartialEq, Eq, Structural)]
pub struct Peer {
    pub ip0: u8,
    pub ip1: u8,
    pub ip2: u8,
    pub ip3: u8,
    pub port: u16,
}

impl Peer {
    /// An address from its parts.
    pub fn new(ip0: u8, ip1: u8, ip2: u8, ip3: u8, port: u16) -> (r: Peer)
        ensures
            r == (Peer { ip0, ip1, ip2, ip3, port }),
    {
        Peer { ip0, ip1, ip2, ip3, port }
    }

    /// Reads one compact record: four address octets, then the port in
    /// big-endian.
    pub fn from_compact(chunk: &[u8]) -> (r: Peer)
        requires
            chunk@.len() >= 6,
        ensures
            r.ip0 == chunk@[0],
            r.ip1 == chunk@[1],
            r.ip2 == chunk@[2],
            r.ip3 == chunk@[3],
            r.port == (chunk@[4] as int) * 256 + (chunk@[5] as int),
    {
        let port: u16 = (chunk[4] as u16) * 256 + (chunk[5] as u16);
        Peer { ip0: chunk[0], ip1: chunk[1], ip2: chunk[2], ip3: chunk[3], port }
    }

    /// The text form `a.b.c.d:p`, as bytes.
    pub open spec fn text_spec(&self) -> Seq<u8> {
        dec_digits(self.ip0 as nat) + seq![0x2eu8] + dec_digits(self.ip1 as nat) + seq![0x2eu8]
            + dec_digits(self.ip2 as nat) + seq![0x2eu8] + dec_digits(self.ip3 as nat) + seq![
            0x3au8,
        ] + dec_digits(self.port as nat)
    }

    /// The text form `a.b.c.d:p`.
    pub fn render(&self) -> (r: String)
        ensures
            r@ == crate::bencode::utf8_lossy_of(self.text_spec()),
    {
        let mut out: Vec<u8> = Vec::new();
        crate::bencode::push_plain_digits(&mut out, self.ip0 as u64);
        out.push(0x2e);
        crate::bencode::push_plain_digits(&mut out, self.ip1 as u64);
        out.push(0x2e);
        crate::bencode::push_plain_digits(&mut out, self.ip2 as u64);
        out.push(0x2e);
        crate::bencode::push_plain_digits(&mut out, self.ip3 as u64);
        out.push(0x3a);
        crate::bencode::push_plain_digits(&mut out, self.port as u64);
        assert(out@ =~= self.text_spec());
        crate::bencode::lossy_text(out.as_slice())
    }
}

/// Splits a tracker's compact peer run into addresses, six bytes each; a
/// trailing fragment is ignored.
pub fn parse_compact_peers(bytes: &[u8]) -> (r: Vec<Peer>)
    ensures
        r@.len() == bytes@.len() / 6,
        forall|i: int|
            0 <= i < r@.len() ==> (#[trigger] r@[i]) == (Peer {
                ip0: bytes@[6 * i],
                ip1: bytes@[6 * i + 1],
                ip2: bytes@[6 * i + 2],
                ip3: bytes@[6 * i + 3],
                port: ((bytes@[6 * i + 4] as int) * 256 + (bytes@[6 * i + 5] as int)) as u16,
            }),
{
    let total = bytes.len();
    let count = total / 6;
    let mut out: Vec<Peer> = Vec::new();
    let mut i: usize = 0;
    while i < count
        invariant
            i <= count,
            total == bytes@.len(),
            count == total / 6,
            out@.len() == i,
            forall|j: int|
                0 <= j < i ==> (#[trigger] out@[j]) == (Peer {
                    ip0: bytes@[6 * j],
                    ip1: bytes@[6 * j + 1],
                    ip2: bytes@[6 * j + 2],
                    ip3: bytes@[6 * j + 3],
                    port: ((bytes@[6 * j + 4] as int) * 256 + (bytes@[6 * j + 5] as int)) as u16,
                }),
        decreases count - i,
    {
        proof {
            assert(6 * (i as int) + 6 <= 6 * (count as int));
            assert(6 * (count as int) <= total as int);
        }
        let chunk = vstd::slice::slice_subrange(bytes, 6 * i, 6 * i + 6);
        let p = Peer::from_compact(chunk);
        out.push(p);
        i = i + 1;
    }
    out
}

} // verus!
