//! Piece reassembly: blocks accumulate per piece until their lengths sum
//! to the declared piece length, and each piece completes at most once.

use vstd::prelude::*;

use crate::error::BitTorrentError;

verus! {

/// A fully reassembled piece, ready for verification.
#[derive(Debug, Clone, PartialEq)]
pub struct Piece {
    pub index: usize,
    pub data: Vec<u8>,
}

/// The total of the held block lengths.
pub open spec fn sum_lens(s: Seq<(usize, Seq<u8>)>) -> int
    decreases s.len(),
{
    if s.len() == 0 {
        0
    } else {
        sum_lens(s.drop_last()) + s.last().1.len()
    }
}

/// A run of zero bytes.
pub open spec fn zero_seq(n: nat) -> Seq<u8> {
    Seq::new(n, |i: int| 0u8)
}

/// The base run with one block written over it at its offset.
pub open spec fn overlay(base: Seq<u8>, off: int, d: Seq<u8>) -> Seq<u8> {
    Seq::new(
        base.len(),
        |i: int|
            if off <= i < off + d.len() {
                d[i - off]
            } else {
                base[i]
            },
    )
}

/// Every block written at its offset over a zeroed buffer, in held order.
pub open spec fn write_blocks(s: Seq<(usize, Seq<u8>)>, n: nat) -> Seq<u8>
    decreases s.len(),
{
    if s.len() == 0 {
        zero_seq(n)
    } else {
        overlay(write_blocks(s.drop_last(), n), s.last().0 as int, s.last().1)
    }
}

/// The first position holding the given offset, or -1.
pub open spec fn find_off(s: Seq<(usize, Seq<u8>)>, off: usize) -> int
    decreases s.len(),
{
    if s.len() == 0 {
        -1
    } else if s[0].0 == off {
        0
    } else {
        let r = find_off(s.drop_first(), off);
        if r < 0 {
            -1
        } else {
            r + 1
        }
    }
}

/// The held blocks after storing one: replacing at its offset when that
/// offset is already held, appended otherwise.
pub open spec fn upsert(s: Seq<(usize, Seq<u8>)>, off: usize, d: Seq<u8>) -> Seq<(usize, Seq<u8>)> {
    if find_off(s, off) >= 0 {
        s.update(find_off(s, off), (off, d))
    } else {
        s.push((off, d))
    }
}

proof fn lemma_find_off_props(s: Seq<(usize, Seq<u8>)>, off: usize)
    ensures
        find_off(s, off) >= 0 ==> 0 <= find_off(s, off) < s.len() && s[find_off(s, off)].0 == off,
        find_off(s, off) < 0 ==> forall|j: int| 0 <= j < s.len() ==> (#[trigger] s[j]).0 != off,
        find_off(s, off) >= 0 ==> forall|j: int|
            0 <= j < find_off(s, off) ==> (#[trigger] s[j]).0 != off,
    decreases s.len(),
{
    if s.len() > 0 && s[0].0 != off {
        lemma_find_off_props(s.drop_first(), off);
        assert forall|j: int| 1 <= j < s.len() implies s.drop_first()[j - 1] == (#[trigger] s[j]) by {
        }
    }
}

/// The sum splits around any cut.
proof fn lemma_sum_split(s: Seq<(usize, Seq<u8>)>, i: int)
    requires
        0 <= i <= s.len(),
    ensures
        sum_lens(s) == sum_lens(s.take(i)) + sum_lens(s.skip(i)),
    decreases s.len() - i,
{
    if i == s.len() {
        assert(s.take(i) =~= s);
        assert(s.skip(i) =~= Seq::<(usize, Seq<u8>)>::empty());
    } else {
        let s2 = s.drop_last();
        lemma_sum_split(s2, i);
        assert(s2.take(i) =~= s.take(i));
        assert(s.skip(i).drop_last() =~= s2.skip(i));
        assert(s.skip(i).last() == s.last());
    }
}

/// Every term is non-negative, so the sum is.
proof fn lemma_sum_nonneg(s: Seq<(usize, Seq<u8>)>)
    ensures
        sum_lens(s) >= 0,
    decreases s.len(),
{
    if s.len() > 0 {
        lemma_sum_nonneg(s.drop_last());
    }
}

/// How the sum changes when one block is stored.
proof fn lemma_sum_upsert(s: Seq<(usize, Seq<u8>)>, off: usize, d: Seq<u8>)
    ensures
        sum_lens(upsert(s, off, d)) == if find_off(s, off) >= 0 {
            sum_lens(s) - s[find_off(s, off)].1.len() + d.len()
        } else {
            sum_lens(s) + d.len()
        },
    decreases s.len(),
{
    lemma_find_off_props(s, off);
    let k = find_off(s, off);
    if k >= 0 {
        let u = s.update(k, (off, d));
        lemma_sum_update(s, k, (off, d));
    } else {
        assert(upsert(s, off, d).drop_last() =~= s);
    }
}

proof fn lemma_sum_update(s: Seq<(usize, Seq<u8>)>, k: int, v: (usize, Seq<u8>))
    requires
        0 <= k < s.len(),
    ensures
        sum_lens(s.update(k, v)) == sum_lens(s) - s[k].1.len() + v.1.len(),
    decreases s.len(),
{
    let u = s.update(k, v);
    if k == s.len() - 1 {
        assert(u.drop_last() =~= s.drop_last());
        assert(u.last() == v);
    } else {
        assert(u.drop_last() =~= s.drop_last().update(k, v));
        assert(u.last() == s.last());
        lemma_sum_update(s.drop_last(), k, v);
    }
}

/// One piece's accumulating blocks.
#[derive(Debug, Clone, PartialEq)]
pub struct Blocks {
    index: usize,
    length: usize,
    blocks: Vec<(usize, Vec<u8>)>,
}

/// The mathematical shape of an accumulator.
#[verifier::ext_equal]
pub struct BlocksView {
    pub index: usize,
    pub length: usize,
    pub blocks: Seq<(usize, Seq<u8>)>,
}

impl View for Blocks {
    type V = BlocksView;

    closed spec fn view(&self) -> BlocksView {
        BlocksView {
            index: self.index,
            length: self.length,
            blocks: self.blocks@.map_values(|p: (usize, Vec<u8>)| (p.0, p.1@)),
        }
    }
}

impl Blocks {
    /// The piece index this accumulator belongs to.
    pub open spec fn index_spec(&self) -> usize {
        self@.index
    }

    /// The declared piece length.
    pub open spec fn length_spec(&self) -> usize {
        self@.length
    }

    /// The held blocks: offset and bytes, in held order.
    pub open spec fn blocks_spec(&self) -> Seq<(usize, Seq<u8>)> {
        self@.blocks
    }

    /// Each block lies inside the piece, no offset is held twice, and the
    /// held lengths never sum past the declared length.
    pub open spec fn wf(&self) -> bool {
        &&& forall|j: int|
            0 <= j < self.blocks_spec().len() ==> (#[trigger] self.blocks_spec()[j]).0 + self.blocks_spec()[j].1.len()
                <= self.length_spec()
        &&& forall|j1: int, j2: int|
            0 <= j1 < j2 < self.blocks_spec().len() ==> (#[trigger] self.blocks_spec()[j1]).0 != (
            #[trigger] self.blocks_spec()[j2]).0
        &&& sum_lens(self.blocks_spec()) <= self.length_spec()
    }

    /// An empty accumulator for one piece.
    pub fn new(index: usize, length: usize) -> (r: Blocks)
        ensures
            r.wf(),
            r.index_spec() == index,
            r.length_spec() == length,
            r.blocks_spec() == Seq::<(usize, Seq<u8>)>::empty(),
    {
        let r = Blocks { index, length, blocks: Vec::new() };
        assert(r.blocks_spec() =~= Seq::<(usize, Seq<u8>)>::empty());
        r
    }

    /// Stores one block.  A block that would reach past the declared
    /// length, or push the held total past it, is refused as overlong.
    pub fn insert_block(&mut self, begin: usize, data: Vec<u8>) -> (r: Result<
        (),
        BitTorrentError,
    >)
        requires
            old(self).wf(),
        ensures
            final(self).wf(),
            final(self).index_spec() == old(self).index_spec(),
            final(self).length_spec() == old(self).length_spec(),
            ({
                let s = old(self).blocks_spec();
                let k = find_off(s, begin);
                let replaced: int = if k >= 0 {
                    s[k].1.len() as int
                } else {
                    0
                };
                let fits = begin + data@.len() <= old(self).length_spec() && sum_lens(s) - replaced
                    + data@.len() <= old(self).length_spec();
                if fits {
                    r is Ok && final(self).blocks_spec() == upsert(s, begin, data@)
                } else {
                    r == Err::<(), BitTorrentError>(BitTorrentError::OverlongBlock)
                        && final(self).blocks_spec() == s
                }
            }),
    {
        proof {
            lemma_find_off_props(self.blocks_spec(), begin);
            lemma_sum_nonneg(self.blocks_spec());
        }
        let existing = self.find_block(begin);
        let replaced: usize = match existing {
            Some(i) => {
                assert(self.blocks_spec()[i as int].1 == self.blocks@[i as int].1@);
                self.blocks[i].1.len()
            },
            None => 0,
        };
        let total = self.len_held();
        if (begin as u128) + (data.len() as u128) > (self.length as u128) {
            return Err(BitTorrentError::OverlongBlock);
        }
        if (total as u128) + (data.len() as u128) > (self.length as u128) + (replaced as u128) {
            return Err(BitTorrentError::OverlongBlock);
        }
        proof {
            lemma_sum_upsert(self.blocks_spec(), begin, data@);
        }
        let ghost s = self.blocks_spec();
        match existing {
            Some(i) => {
                self.blocks.set(i, (begin, data));
                proof {
                    assert(self.blocks_spec() =~= s.update(i as int, (begin, data@)));
                }
            },
            None => {
                self.blocks.push((begin, data));
                proof {
                    assert(self.blocks_spec() =~= s.push((begin, data@)));
                }
            },
        }
        Ok(())
    }

    /// The position of a held offset.
    fn find_block(&self, begin: usize) -> (r: Option<usize>)
        ensures
            match r {
                Some(i) => find_off(self.blocks_spec(), begin) == i as int,
                None => find_off(self.blocks_spec(), begin) < 0,
            },
    {
        proof {
            lemma_find_off_props(self.blocks_spec(), begin);
        }
        let mut i: usize = 0;
        while i < self.blocks.len()
            invariant
                i <= self.blocks@.len(),
                forall|j: int| 0 <= j < i ==> (#[trigger] self.blocks_spec()[j]).0 != begin,
            decreases self.blocks@.len() - i,
        {
            assert(self.blocks_spec()[i as int].0 == self.blocks@[i as int].0);
            if self.blocks[i].0 == begin {
                proof {
                    lemma_find_off_first(self.blocks_spec(), begin, i as int);
                }
                return Some(i);
            }
            i = i + 1;
        }
        None
    }

    /// The number of bytes held so far.
    fn len_held(&self) -> (r: usize)
        requires
            self.wf(),
        ensures
            r == sum_lens(self.blocks_spec()),
    {
        let ghost s = self.blocks_spec();
        let mut acc: usize = 0;
        let mut i: usize = 0;
        proof {
            assert(s.take(0) =~= Seq::<(usize, Seq<u8>)>::empty());
        }
        while i < self.blocks.len()
            invariant
                self.wf(),
                i <= self.blocks@.len(),
                s == self.blocks_spec(),
                acc == sum_lens(s.take(i as int)),
            decreases self.blocks@.len() - i,
        {
            proof {
                assert(s[i as int] == (self.blocks@[i as int].0, self.blocks@[i as int].1@));
                assert(s.take(i as int + 1).drop_last() =~= s.take(i as int));
                assert(s.take(i as int + 1).last() == s[i as int]);
                lemma_sum_split(s, i as int + 1);
                lemma_sum_nonneg(s.skip(i as int + 1));
            }
            assert(acc + self.blocks@[i as int].1@.len() == sum_lens(s.take(i as int + 1)));
            assert(sum_lens(s.take(i as int + 1)) <= self.length_spec());
            acc = acc + self.blocks[i].1.len();
            i = i + 1;
        }
        assert(s.take(i as int) =~= s);
        acc
    }

    /// Whether the held lengths sum to the declared piece length.
    pub fn is_complete(&self) -> (r: bool)
        requires
            self.wf(),
        ensures
            r == (sum_lens(self.blocks_spec()) == self.length_spec()),
    {
        let total = self.len_held();
        total == self.length
    }

    /// The reassembled bytes: every block written at its offset into a
    /// zero-filled buffer of the declared length.  Yields nothing until
    /// the accumulator is complete.
    pub fn into_piece(self) -> (r: Option<Piece>)
        requires
            self.wf(),
        ensures
            if sum_lens(self.blocks_spec()) == self.length_spec() {
                match r {
                    Some(p) => p.index == self.index_spec() && p.data@ == write_blocks(
                        self.blocks_spec(),
                        self.length_spec() as nat,
                    ),
                    None => false,
                }
            } else {
                r is None
            },
    {
        if !self.is_complete() {
            return None;
        }
        let ghost s = self.blocks_spec();
        let mut data: Vec<u8> = Vec::new();
        let mut z: usize = 0;
        while z < self.length
            invariant
                z <= self.length,
                data@ =~= zero_seq(z as nat),
            decreases self.length - z,
        {
            data.push(0);
            z = z + 1;
        }
        assert(data@ =~= zero_seq(self.length as nat));
        let mut k: usize = 0;
        proof {
            assert(s.take(0) =~= Seq::<(usize, Seq<u8>)>::empty());
        }
        while k < self.blocks.len()
            invariant
                self.wf(),
                k <= self.blocks@.len(),
                s == self.blocks_spec(),
                data@.len() == self.length_spec(),
                data@ == write_blocks(s.take(k as int), self.length_spec() as nat),
            decreases self.blocks@.len() - k,
        {
            let off: usize = self.blocks[k].0;
            let blen: usize = self.blocks[k].1.len();
            assert(s[k as int] == (self.blocks@[k as int].0, self.blocks@[k as int].1@));
            assert(off + blen <= self.length_spec());
            let ghost base = data@;
            let mut j: usize = 0;
            while j < blen
                invariant
                    j <= blen,
                    blen == self.blocks@[k as int].1@.len(),
                    off + blen <= data@.len(),
                    data@.len() == self.length_spec(),
                    k < self.blocks@.len(),
                    self.blocks@[k as int].1@ == s[k as int].1,
                    off == s[k as int].0,
                    data@.len() == base.len(),
                    forall|i: int|
                        0 <= i < data@.len() && !(off <= i < off + j) ==> data@[i] == base[i],
                    forall|i: int|
                        off <= i < off + j ==> data@[i] == self.blocks@[k as int].1@[i - off],
                decreases blen - j,
            {
                let b: u8 = self.blocks[k].1[j];
                data[off + j] = b;
                j = j + 1;
            }
            proof {
                assert(data@ =~= overlay(base, off as int, s[k as int].1));
                assert(s.take(k as int + 1).drop_last() =~= s.take(k as int));
                assert(s.take(k as int + 1).last() == s[k as int]);
            }
            k = k + 1;
        }
        assert(s.take(k as int) =~= s);
        Some(Piece { index: self.index, data })
    }
}

/// The first position among open accumulators holding a piece index, or -1.
pub open spec fn find_open(s: Seq<BlocksView>, index: usize) -> int
    decreases s.len(),
{
    if s.len() == 0 {
        -1
    } else if s[0].index == index {
        0
    } else {
        let r = find_open(s.drop_first(), index);
        if r < 0 {
            -1
        } else {
            r + 1
        }
    }
}

proof fn lemma_find_open_props(s: Seq<BlocksView>, index: usize)
    ensures
        find_open(s, index) >= 0 ==> 0 <= find_open(s, index) < s.len() && s[find_open(
            s,
            index,
        )].index == index,
        find_open(s, index) < 0 ==> forall|j: int|
            0 <= j < s.len() ==> (#[trigger] s[j]).index != index,
        find_open(s, index) >= 0 ==> forall|j: int|
            0 <= j < find_open(s, index) ==> (#[trigger] s[j]).index != index,
    decreases s.len(),
{
    if s.len() > 0 && s[0].index != index {
        lemma_find_open_props(s.drop_first(), index);
        assert forall|j: int| 1 <= j < s.len() implies s.drop_first()[j - 1] == (#[trigger] s[j]) by {
        }
    }
}

/// What delivering one block to the manager does.  An orphan is refused,
/// an overlong block is refused, a completing block emits the piece once
/// and retires its accumulator, and anything else just accumulates.
pub open spec fn deliver_effect(
    pre: PieceManager,
    post: PieceManager,
    index: usize,
    begin: usize,
    data: Seq<u8>,
    r: Result<Option<Piece>, BitTorrentError>,
) -> bool {
    let j = find_open(pre.open_views(), index);
    if j < 0 {
        &&& r == Err::<Option<Piece>, _>(BitTorrentError::OrphanBlock)
        &&& post.open_views() == pre.open_views()
        &&& post.completed_spec() == pre.completed_spec()
    } else {
        let b = pre.open_views()[j];
        let k = find_off(b.blocks, begin);
        let replaced: int = if k >= 0 {
            b.blocks[k].1.len() as int
        } else {
            0
        };
        let fits = begin + data.len() <= b.length && sum_lens(b.blocks) - replaced + data.len()
            <= b.length;
        let ns = upsert(b.blocks, begin, data);
        if !fits {
            &&& r == Err::<Option<Piece>, _>(BitTorrentError::OverlongBlock)
            &&& post.open_views() == pre.open_views()
            &&& post.completed_spec() == pre.completed_spec()
        } else if sum_lens(ns) == b.length {
            &&& !pre.is_completed(index)
            &&& (match r {
                Ok(Some(p)) => p.index == index && p.data@ == write_blocks(ns, b.length as nat),
                _ => false,
            })
            &&& post.open_views() == pre.open_views().remove(j)
            &&& post.completed_spec() == pre.completed_spec().push(index)
            &&& post.is_completed(index)
        } else {
            &&& r == Ok::<Option<Piece>, BitTorrentError>(None)
            &&& post.open_views() == pre.open_views().update(
                j,
                BlocksView { index: b.index, length: b.length, blocks: ns },
            )
            &&& post.completed_spec() == pre.completed_spec()
        }
    }
}

/// What opening an accumulator does: nothing when the index is open or
/// already emitted, a fresh empty accumulator otherwise.
pub open spec fn open_effect(
    pre: PieceManager,
    post: PieceManager,
    index: usize,
    piece_length: usize,
) -> bool {
    &&& post.completed_spec() == pre.completed_spec()
    &&& if pre.has_open(index) || pre.is_completed(index) {
        post.open_views() == pre.open_views()
    } else {
        post.open_views() == pre.open_views().push(
            BlocksView { index, length: piece_length, blocks: Seq::empty() },
        )
    }
}

/// Accumulators by piece index, with the record of every piece already
/// emitted: no piece completes twice.
pub struct PieceManager {
    open_pieces: Vec<Blocks>,
    completed: Vec<usize>,
}

impl PieceManager {
    /// The open accumulators, in opening order.
    pub closed spec fn open_views(&self) -> Seq<BlocksView> {
        self.open_pieces@.map_values(|b: Blocks| b@)
    }

    /// The indices of the pieces already emitted, in emission order.
    pub closed spec fn completed_spec(&self) -> Seq<usize> {
        self.completed@
    }

    /// Whether an accumulator is open for a piece.
    pub open spec fn has_open(&self, index: usize) -> bool {
        find_open(self.open_views(), index) >= 0
    }

    /// Whether a piece has already been emitted.
    pub open spec fn is_completed(&self, index: usize) -> bool {
        self.completed_spec().contains(index)
    }

    /// Accumulators are well-formed, one per index, and none is open for a
    /// piece that has already been emitted.
    pub open spec fn wf(&self) -> bool {
        &&& forall|j: int|
            0 <= j < self.open_views().len() ==> {
                let v = #[trigger] self.open_views()[j];
                &&& v.blocks.len() >= 0
                &&& (forall|i: int|
                    0 <= i < v.blocks.len() ==> (#[trigger] v.blocks[i]).0 + v.blocks[i].1.len()
                        <= v.length)
                &&& (forall|i1: int, i2: int|
                    0 <= i1 < i2 < v.blocks.len() ==> (#[trigger] v.blocks[i1]).0 != (
                    #[trigger] v.blocks[i2]).0)
                &&& sum_lens(v.blocks) <= v.length
            }
        &&& forall|j1: int, j2: int|
            0 <= j1 < j2 < self.open_views().len() ==> (#[trigger] self.open_views()[j1]).index
                != (#[trigger] self.open_views()[j2]).index
        &&& self.completed_spec().no_duplicates()
        &&& forall|j: int|
            0 <= j < self.open_views().len() ==> !self.completed_spec().contains(
                (#[trigger] self.open_views()[j]).index,
            )
    }

    /// An empty manager: nothing open, nothing emitted.
    pub fn new() -> (r: PieceManager)
        ensures
            r.wf(),
            r.open_views() == Seq::<BlocksView>::empty(),
            r.completed_spec() == Seq::<usize>::empty(),
    {
        let r = PieceManager { open_pieces: Vec::new(), completed: Vec::new() };
        assert(r.open_views() =~= Seq::<BlocksView>::empty());
        r
    }

    /// The position of the accumulator open for a piece.
    fn find_open_idx(&self, index: usize) -> (r: Option<usize>)
        ensures
            match r {
                Some(i) => find_open(self.open_views(), index) == i as int,
                None => find_open(self.open_views(), index) < 0,
            },
    {
        proof {
            lemma_find_open_props(self.open_views(), index);
        }
        let mut i: usize = 0;
        while i < self.open_pieces.len()
            invariant
                i <= self.open_pieces@.len(),
                forall|j: int| 0 <= j < i ==> (#[trigger] self.open_views()[j]).index != index,
            decreases self.open_pieces@.len() - i,
        {
            assert(self.open_views()[i as int] == self.open_pieces@[i as int]@);
            if self.open_pieces[i].index == index {
                proof {
                    lemma_find_open_first(self.open_views(), index, i as int);
                }
                return Some(i);
            }
            i = i + 1;
        }
        None
    }

    /// Opens an empty accumulator for a piece.  Does nothing when one is
    /// already open for that index, or when the piece already completed:
    /// opening is idempotent and a piece never completes twice.
    pub fn new_block(&mut self, index: usize, piece_length: usize)
        requires
            old(self).wf(),
        ensures
            final(self).wf(),
            open_effect(*old(self), *final(self), index, piece_length),
    {
        let already_open = match self.find_open_idx(index) {
            Some(_) => true,
            None => false,
        };
        proof {
            lemma_find_open_props(self.open_views(), index);
        }
        if already_open || self.contains_completed(index) {
            return ;
        }
        let ghost before = self.open_views();
        let b = Blocks::new(index, piece_length);
        assert(b@ == (BlocksView { index, length: piece_length, blocks: b@.blocks }));
        self.open_pieces.push(b);
        proof {
            assert(self.open_views() =~= before.push(b@));
            assert(b@.blocks =~= Seq::<(usize, Seq<u8>)>::empty());
        }
    }

    /// Whether the record of emitted pieces holds an index.
    fn contains_completed(&self, index: usize) -> (r: bool)
        ensures
            r == self.is_completed(index),
    {
        let mut i: usize = 0;
        while i < self.completed.len()
            invariant
                i <= self.completed@.len(),
                forall|j: int| 0 <= j < i ==> self.completed@[j] != index,
            decreases self.completed@.len() - i,
        {
            if self.completed[i] == index {
                return true;
            }
            i = i + 1;
        }
        false
    }

    /// Delivers one block.  A block for a piece with no open accumulator
    /// is an orphan; one past the piece bounds is overlong.  When the
    /// held lengths reach the declared piece length, the piece is emitted,
    /// exactly once, and its accumulator is dropped.
    pub fn insert_block(&mut self, index: usize, begin: usize, data: Vec<u8>) -> (r: Result<
        Option<Piece>,
        BitTorrentError,
    >)
        requires
            old(self).wf(),
        ensures
            final(self).wf(),
            deliver_effect(*old(self), *final(self), index, begin, data@, r),
            forall|i: usize| old(self).is_completed(i) ==> final(self).is_completed(i),
    {
        proof {
            lemma_find_open_props(self.open_views(), index);
        }
        let pos = match self.find_open_idx(index) {
            Some(p) => p,
            None => {
                return Err(BitTorrentError::OrphanBlock);
            },
        };
        let ghost before = self.open_views();
        let mut b = self.open_pieces.remove(pos);
        assert(before[pos as int] == b@);
        match b.insert_block(begin, data) {
            Err(e) => {
                self.open_pieces.insert(pos, b);
                proof {
                    assert(self.open_views() =~= before);
                }
                Err(e)
            },
            Ok(()) => {
                if b.is_complete() {
                    let ghost nb = b@;
                    let piece = match b.into_piece() {
                        Some(p) => p,
                        None => {
                            proof {
                                assert(false);
                            }
                            return Err(BitTorrentError::OrphanBlock);
                        },
                    };
                    proof {
                        assert(self.open_views() =~= before.remove(pos as int));
                        assert(!old(self).is_completed(index)) by {
                            assert(before[pos as int].index == index);
                        }
                    }
                    self.completed.push(index);
                    proof {
                        lemma_completed_push_wf(before, self.open_views(), old(self).completed_spec(), index, pos as int);
                        assert(self.completed_spec() =~= old(self).completed_spec().push(index));
                        assert(self.completed_spec().contains(index)) by {
                            assert(self.completed_spec()[self.completed_spec().len() - 1] == index);
                        }
                        assert forall|i2: usize|
                            old(self).is_completed(i2) implies self.is_completed(i2) by {
                            let w = choose|w: int|
                                0 <= w < old(self).completed_spec().len() && old(
                                    self,
                                ).completed_spec()[w] == i2;
                            assert(self.completed_spec()[w] == i2);
                        }
                    }
                    Ok(Some(piece))
                } else {
                    let ghost nb = b@;
                    self.open_pieces.insert(pos, b);
                    proof {
                        assert(self.open_views() =~= before.update(pos as int, nb));
                        assert(nb == (BlocksView {
                            index: before[pos as int].index,
                            length: before[pos as int].length,
                            blocks: nb.blocks,
                        }));
                    }
                    Ok(None)
                }
            },
        }
    }
}

/// A piece index that has completed once can never complete again: any
/// later delivery for it finds no accumulator and is refused as an
/// orphan, and the index stays recorded.  The manager emits at most one
/// completed piece per index per lifetime.
pub proof fn lemma_no_duplicate_completion(
    pre: PieceManager,
    post: PieceManager,
    index: usize,
    begin: usize,
    data: Seq<u8>,
    r: Result<Option<Piece>, BitTorrentError>,
)
    requires
        pre.wf(),
        pre.is_completed(index),
        deliver_effect(pre, post, index, begin, data, r),
    ensures
        r == Err::<Option<Piece>, BitTorrentError>(BitTorrentError::OrphanBlock),
        post.is_completed(index),
{
    lemma_find_open_props(pre.open_views(), index);
    let j = find_open(pre.open_views(), index);
    if j >= 0 {
        assert(pre.open_views()[j].index == index);
        assert(!pre.completed_spec().contains(pre.open_views()[j].index));
        assert(false);
    }
}

/// Ordered delivery leaves no orphans: while a piece's accumulator is
/// open, a block that fits and brings the held lengths exactly to the
/// declared piece length is accepted and emits the completed piece, in
/// that same call.
pub proof fn lemma_ordered_delivery_completes(
    pre: PieceManager,
    post: PieceManager,
    index: usize,
    begin: usize,
    data: Seq<u8>,
    r: Result<Option<Piece>, BitTorrentError>,
)
    requires
        pre.wf(),
        pre.has_open(index),
        deliver_effect(pre, post, index, begin, data, r),
        ({
            let b = pre.open_views()[find_open(pre.open_views(), index)];
            let k = find_off(b.blocks, begin);
            let replaced: int = if k >= 0 {
                b.blocks[k].1.len() as int
            } else {
                0
            };
            &&& begin + data.len() <= b.length
            &&& sum_lens(b.blocks) - replaced + data.len() == b.length
        }),
    ensures
        ({
            let b = pre.open_views()[find_open(pre.open_views(), index)];
            match r {
                Ok(Some(p)) => p.index == index && p.data@ == write_blocks(
                    upsert(b.blocks, begin, data),
                    b.length as nat,
                ),
                _ => false,
            }
        }),
        post.is_completed(index),
{
    let j = find_open(pre.open_views(), index);
    let b = pre.open_views()[j];
    lemma_sum_upsert(b.blocks, begin, data);
}

/// After an accumulator completes and leaves, recording its index keeps
/// the manager well-formed.
proof fn lemma_completed_push_wf(
    before: Seq<BlocksView>,
    after: Seq<BlocksView>,
    completed: Seq<usize>,
    index: usize,
    pos: int,
)
    requires
        0 <= pos < before.len(),
        before[pos].index == index,
        after == before.remove(pos),
        completed.no_duplicates(),
        !completed.contains(index),
        forall|j1: int, j2: int|
            0 <= j1 < j2 < before.len() ==> (#[trigger] before[j1]).index != (
            #[trigger] before[j2]).index,
        forall|j: int| 0 <= j < before.len() ==> !completed.contains((#[trigger] before[j]).index),
    ensures
        completed.push(index).no_duplicates(),
        forall|j: int|
            0 <= j < after.len() ==> !completed.push(index).contains((#[trigger] after[j]).index),
{
    before.remove_ensures(pos);
    assert forall|j: int| 0 <= j < after.len() implies !completed.push(index).contains(
        (#[trigger] after[j]).index,
    ) by {
        let orig = if j < pos {
            j
        } else {
            j + 1
        };
        assert(after[j] == before[orig]);
        assert(before[orig].index != index);
        assert(!completed.contains(before[orig].index));
        if completed.push(index).contains(before[orig].index) {
            let w = choose|w: int|
                0 <= w < completed.push(index).len() && completed.push(index)[w] == before[orig].index;
            if w < completed.len() {
                assert(completed[w] == before[orig].index);
                assert(completed.contains(before[orig].index));
            }
        }
    }
    assert forall|i1: int, i2: int|
        0 <= i1 < i2 < completed.push(index).len() implies completed.push(index)[i1] != completed.push(
        index,
    )[i2] by {
        if i2 == completed.len() {
            assert(completed.push(index)[i1] == completed[i1]);
            assert(!completed.contains(index));
            if completed[i1] == index {
                assert(completed.contains(index));
            }
        }
    }
}

proof fn lemma_find_open_first(s: Seq<BlocksView>, index: usize, i: int)
    requires
        0 <= i < s.len(),
        s[i].index == index,
        forall|j: int| 0 <= j < i ==> (#[trigger] s[j]).index != index,
    ensures
        find_open(s, index) == i,
    decreases s.len(),
{
    if i > 0 {
        assert(s[0].index != index);
        assert forall|j: int| 0 <= j < i - 1 implies (#[trigger] s.drop_first()[j]).index != index by {
            assert(s.drop_first()[j] == s[j + 1]);
        }
        assert(s.drop_first()[i - 1] == s[i]);
        lemma_find_open_first(s.drop_first(), index, i - 1);
    }
}

proof fn lemma_find_off_first(s: Seq<(usize, Seq<u8>)>, off: usize, i: int)
    requires
        0 <= i < s.len(),
        s[i].0 == off,
        forall|j: int| 0 <= j < i ==> (#[trigger] s[j]).0 != off,
    ensures
        find_off(s, off) == i,
    decreases s.len(),
{
    if i > 0 {
        assert(s[0].0 != off);
        assert forall|j: int| 0 <= j < i - 1 implies (#[trigger] s.drop_first()[j]).0 != off by {
            assert(s.drop_first()[j] == s[j + 1]);
        }
        assert(s.drop_first()[i - 1] == s[i]);
        lemma_find_off_first(s.drop_first(), off, i - 1);
    }
}

} // verus!
