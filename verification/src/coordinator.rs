//! What the download coordinator computes: round-robin dispatch, content
//! verification, and assembly of completed pieces in index order.

use vstd::prelude::*;

use crate::bytes20::{sha1_of, Bytes20};
use crate::error::BitTorrentError;
use crate::piece::Piece;

verus! {

/// One downloaded piece, index and content, ready for assembly.
#[derive(Debug, Clone, PartialEq)]
pub struct Download {
    pub index: u32,
    pub block: Vec<u8>,
}

/// Which peer each piece goes to: pieces walk the peers in a repeating
/// round.
pub fn assign_round_robin(n_peers: usize, n_pieces: usize) -> (r: Vec<usize>)
    requires
        n_peers > 0,
    ensures
        r@.len() == n_pieces,
        forall|i: int| 0 <= i < n_pieces ==> r@[i] == i % (n_peers as int),
{
    let mut out: Vec<usize> = Vec::new();
    let mut i: usize = 0;
    while i < n_pieces
        invariant
            i <= n_pieces,
            n_peers > 0,
            out@.len() == i,
            forall|j: int| 0 <= j < i ==> out@[j] == j % (n_peers as int),
        decreases n_pieces - i,
    {
        out.push(i % n_peers);
        i = i + 1;
    }
    out
}

/// Checks a completed piece against its expected hash; a mismatch is
/// surfaced before anything is written out.
pub fn verify_piece(index: u32, data: &[u8], expected: &Bytes20) -> (r: Result<
    (),
    BitTorrentError,
>)
    ensures
        r is Ok <==> sha1_of(data@) == expected@,
        r is Err ==> r->Err_0 == (BitTorrentError::PieceHashMismatch { index }),
{
    let digest = Bytes20::sha1_hash(data);
    if digest == *expected {
        Ok(())
    } else {
        Err(BitTorrentError::PieceHashMismatch { index })
    }
}

/// The first position holding a piece index, or -1.
pub open spec fn find_piece(ps: Seq<Piece>, index: usize) -> int
    decreases ps.len(),
{
    if ps.len() == 0 {
        -1
    } else if ps[0].index == index {
        0
    } else {
        let r = find_piece(ps.drop_first(), index);
        if r < 0 {
            -1
        } else {
            r + 1
        }
    }
}

/// The bytes of pieces `k..n` read in index order.
pub open spec fn ordered_data(ps: Seq<Piece>, k: int, n: int) -> Seq<u8>
    decreases n - k,
{
    if k < 0 || k >= n {
        Seq::empty()
    } else if find_piece(ps, k as usize) >= 0 {
        ps[find_piece(ps, k as usize)].data@ + ordered_data(ps, k + 1, n)
    } else {
        ordered_data(ps, k + 1, n)
    }
}

proof fn lemma_find_piece_props(ps: Seq<Piece>, index: usize)
    ensures
        find_piece(ps, index) >= 0 ==> 0 <= find_piece(ps, index) < ps.len() && ps[find_piece(
            ps,
            index,
        )].index == index,
        find_piece(ps, index) < 0 ==> forall|j: int|
            0 <= j < ps.len() ==> (#[trigger] ps[j]).index != index,
        find_piece(ps, index) >= 0 ==> forall|j: int|
            0 <= j < find_piece(ps, index) ==> (#[trigger] ps[j]).index != index,
    decreases ps.len(),
{
    if ps.len() > 0 && ps[0].index != index {
        lemma_find_piece_props(ps.drop_first(), index);
        assert forall|j: int| 1 <= j < ps.len() implies ps.drop_first()[j - 1] == (
        #[trigger] ps[j]) by {}
    }
}

proof fn lemma_find_piece_first(ps: Seq<Piece>, index: usize, i: int)
    requires
        0 <= i < ps.len(),
        ps[i].index == index,
        forall|j: int| 0 <= j < i ==> (#[trigger] ps[j]).index != index,
    ensures
        find_piece(ps, index) == i,
    decreases ps.len(),
{
    if i > 0 {
        assert forall|j: int| 0 <= j < i - 1 implies (#[trigger] ps.drop_first()[j]).index
            != index by {
            assert(ps.drop_first()[j] == ps[j + 1]);
        }
        assert(ps.drop_first()[i - 1] == ps[i]);
        lemma_find_piece_first(ps.drop_first(), index, i - 1);
    }
}

/// Joins completed pieces in index order: for each index `0..n` the first
/// piece holding it contributes its bytes.  Completion order across peers
/// carries no meaning; the file is the pieces sorted by index.
pub fn assemble_pieces(pieces: &Vec<Piece>, n: usize) -> (r: Result<Vec<u8>, BitTorrentError>)
    ensures
        r is Ok <==> (forall|k: int|
            0 <= k < n ==> #[trigger] find_piece(pieces@, k as usize) >= 0),
        r is Ok ==> r->Ok_0@ == ordered_data(pieces@, 0, n as int),
        r is Err ==> r->Err_0 == BitTorrentError::OrphanBlock,
{
    let ghost ps = pieces@;
    let mut out: Vec<u8> = Vec::new();
    let mut k: usize = 0;
    while k < n
        invariant
            k <= n,
            ps == pieces@,
            forall|m: int| 0 <= m < k ==> #[trigger] find_piece(ps, m as usize) >= 0,
            out@ + ordered_data(ps, k as int, n as int) == ordered_data(ps, 0, n as int),
        decreases n - k,
    {
        let pos = match find_piece_exec(pieces, k) {
            Some(p) => p,
            None => {
                return Err(BitTorrentError::OrphanBlock);
            },
        };
        let ghost before = out@;
        proof {
            lemma_find_piece_props(ps, k);
        }
        let mut chunk = crate::message::clone_bytes(&pieces[pos].data);
        out.append(&mut chunk);
        proof {
            assert(ordered_data(ps, k as int, n as int) == ps[pos as int].data@ + ordered_data(
                ps,
                k as int + 1,
                n as int,
            ));
            assert(out@ + ordered_data(ps, k as int + 1, n as int) =~= before + ordered_data(
                ps,
                k as int,
                n as int,
            ));
        }
        k = k + 1;
    }
    proof {
        assert(ordered_data(ps, n as int, n as int) =~= Seq::<u8>::empty());
        assert(out@ =~= ordered_data(ps, 0, n as int));
    }
    Ok(out)
}

/// The position of the first piece with an index.
fn find_piece_exec(pieces: &Vec<Piece>, index: usize) -> (r: Option<usize>)
    ensures
        match r {
            Some(i) => find_piece(pieces@, index) == i as int,
            None => find_piece(pieces@, index) < 0,
        },
{
    proof {
        lemma_find_piece_props(pieces@, index);
    }
    let mut i: usize = 0;
    while i < pieces.len()
        invariant
            i <= pieces@.len(),
            forall|j: int| 0 <= j < i ==> (#[trigger] pieces@[j]).index != index,
        decreases pieces@.len() - i,
    {
        if pieces[i].index == index {
            proof {
                lemma_find_piece_first(pieces@, index, i as int);
            }
            return Some(i);
        }
        i = i + 1;
    }
    None
}

} // verus!
