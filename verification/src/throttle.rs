//! A bounded-concurrency request pipeline: at most `capacity` keys in
//! flight, first-in-first-out promotion of the rest.

use vstd::prelude::*;
use vstd::seq_lib::*;

use crate::bytes20::Bytes20;

verus! {

/// A 20-byte key that identifies an item's outstanding request.  Items
/// whose delivery is not tracked carry a sentinel key and never count
/// against the pipeline capacity.
pub trait KeyHash {
    /// The key as a byte run, for contracts.
    spec fn key_spec(&self) -> Seq<u8>;

    /// Whether the item's delivery is tracked at all, for contracts.
    spec fn tracked_spec(&self) -> bool;

    /// The key as a value.
    fn key_hash(&self) -> (r: Bytes20)
        ensures
            r@ == self.key_spec(),
    ;

    /// Whether the item's delivery is tracked at all.
    fn is_tracked(&self) -> (r: bool)
        ensures
            r == self.tracked_spec(),
    ;
}

/// The waiting line without the items that carry a given key.
pub open spec fn drops_key<T: KeyHash>(w: Seq<T>, k: Seq<u8>) -> Seq<T> {
    w.filter(|t: T| t.key_spec() != k)
}

/// What enqueueing one item does: handed straight back for sending, with
/// its key marked in flight, while a slot is free; appended to the waiting
/// line otherwise.
pub open spec fn queue_effect<T: KeyHash>(
    pre: ThrottleQueue<T>,
    post: ThrottleQueue<T>,
    item: T,
    sent: Option<T>,
) -> bool {
    &&& post.cap() == pre.cap()
    &&& if !item.tracked_spec() {
        &&& sent == Some(item)
        &&& post.inflight() == pre.inflight()
        &&& post.waiting() == pre.waiting()
    } else if pre.inflight().len() < pre.cap() {
        &&& sent == Some(item)
        &&& post.waiting() == pre.waiting()
        &&& post.inflight() == if pre.has_inflight(item.key_spec()) {
            pre.inflight()
        } else {
            pre.inflight().push(item.key_spec())
        }
    } else {
        &&& sent is None
        &&& post.inflight() == pre.inflight()
        &&& post.waiting() == pre.waiting().push(item)
    }
}

/// What acknowledging a key does: frees its slot and promotes the head of
/// the waiting line when the key was in flight; discards waiting items
/// with that key when it was not.
pub open spec fn done_effect<T: KeyHash>(
    pre: ThrottleQueue<T>,
    post: ThrottleQueue<T>,
    k: Seq<u8>,
    sent: Option<T>,
) -> bool {
    &&& post.cap() == pre.cap()
    &&& if pre.has_inflight(k) {
        if pre.waiting().len() > 0 {
            &&& sent == Some(pre.waiting()[0])
            &&& post.waiting() == pre.waiting().drop_first()
            &&& post.inflight().to_set() == pre.inflight().to_set().remove(k).insert(
                pre.waiting()[0].key_spec(),
            )
        } else {
            &&& sent is None
            &&& post.waiting() == pre.waiting()
            &&& post.inflight().to_set() == pre.inflight().to_set().remove(k)
        }
    } else {
        &&& sent is None
        &&& post.inflight() == pre.inflight()
        &&& post.waiting() == drops_key(pre.waiting(), k)
    }
}

/// Holds items back so that never more than `capacity` keys are in flight
/// at once; waiting items leave in arrival order.
pub struct ThrottleQueue<T: KeyHash> {
    waitings: Vec<T>,
    processings: Vec<Bytes20>,
    capacity: usize,
}

impl<T: KeyHash> ThrottleQueue<T> {
    /// The keys currently counted against the capacity, in insertion order.
    pub closed spec fn inflight(&self) -> Seq<Seq<u8>> {
        self.processings@.map_values(|b: Bytes20| b@)
    }

    /// The items waiting for a slot, in arrival order.
    pub closed spec fn waiting(&self) -> Seq<T> {
        self.waitings@
    }

    /// The bound on in-flight keys.
    pub closed spec fn cap(&self) -> nat {
        self.capacity as nat
    }

    /// Whether a key is in flight.
    pub open spec fn has_inflight(&self, k: Seq<u8>) -> bool {
        self.inflight().contains(k)
    }

    /// The number of keys in flight never passes the capacity, and no key
    /// is counted twice.
    pub open spec fn wf(&self) -> bool {
        &&& self.inflight().no_duplicates()
        &&& self.inflight().len() <= self.cap()
    }

    /// An empty queue with the given bound.
    pub fn new(capacity: usize) -> (r: ThrottleQueue<T>)
        ensures
            r.wf(),
            r.cap() == capacity,
            r.inflight() == Seq::<Seq<u8>>::empty(),
            r.waiting() == Seq::<T>::empty(),
    {
        let r = ThrottleQueue { waitings: Vec::new(), processings: Vec::new(), capacity };
        assert(r.inflight() =~= Seq::<Seq<u8>>::empty());
        r
    }

    /// Whether every slot is taken.
    pub fn is_full(&self) -> (r: bool)
        ensures
            r == (self.inflight().len() >= self.cap()),
    {
        self.processings.len() >= self.capacity
    }

    /// The index of a key among the in-flight ones, if it is there.
    fn find_key(&self, hash: &Bytes20) -> (r: Option<usize>)
        ensures
            match r {
                Some(i) => i < self.inflight().len() && self.inflight()[i as int] == hash@,
                None => !self.has_inflight(hash@),
            },
    {
        let mut i: usize = 0;
        while i < self.processings.len()
            invariant
                i <= self.processings@.len(),
                forall|j: int| 0 <= j < i ==> self.inflight()[j] != hash@,
            decreases self.processings@.len() - i,
        {
            assert(self.inflight()[i as int] == self.processings@[i as int]@);
            if &self.processings[i] == hash {
                return Some(i);
            }
            i = i + 1;
        }
        assert forall|j: int| 0 <= j < self.inflight().len() implies self.inflight()[j] != hash@ by {
        }
        None
    }

    /// Marks a key in flight unless it is already counted.
    fn mark_inflight(&mut self, hash: Bytes20)
        requires
            old(self).inflight().len() < old(self).cap() || old(self).has_inflight(hash@),
            old(self).wf(),
        ensures
            final(self).wf(),
            final(self).cap() == old(self).cap(),
            final(self).waiting() == old(self).waiting(),
            final(self).inflight() == if old(self).has_inflight(hash@) {
                old(self).inflight()
            } else {
                old(self).inflight().push(hash@)
            },
    {
        let present = match self.find_key(&hash) {
            Some(_) => true,
            None => false,
        };
        if !present {
            let ghost before = self.processings@;
            self.processings.push(hash);
            assert(self.inflight() =~= before.map_values(|b: Bytes20| b@).push(hash@));
        }
    }

    /// Hands the item back for sending when a slot is free, marking its key
    /// in flight; otherwise appends it to the waiting line.  An untracked
    /// item goes straight back out and never takes a slot.
    pub fn queue(&mut self, item: T) -> (sent: Option<T>)
        requires
            old(self).wf(),
        ensures
            final(self).wf(),
            queue_effect(*old(self), *final(self), item, sent),
    {
        if !item.is_tracked() {
            return Some(item);
        }
        if self.processings.len() < self.capacity {
            let hash = item.key_hash();
            self.mark_inflight(hash);
            Some(item)
        } else {
            self.waitings.push(item);
            None
        }
    }

    /// Acknowledges a key.  If it was in flight, frees its slot and, when
    /// something waits, promotes the head of the line and hands it back for
    /// sending.  If it was not, discards every waiting item with that key,
    /// treating them as cancelled duplicates.
    pub fn done(&mut self, hash: Bytes20) -> (sent: Option<T>)
        requires
            old(self).wf(),
        ensures
            final(self).wf(),
            done_effect(*old(self), *final(self), hash@, sent),
    {
        broadcast use vstd::seq_lib::group_seq_properties;

        match self.find_key(&hash) {
            Some(i) => {
                let ghost before = self.processings@;
                self.processings.remove(i);
                proof {
                    assert(self.inflight() =~= before.map_values(|b: Bytes20| b@).remove(i as int));
                    lemma_removed_key_set(
                        before.map_values(|b: Bytes20| b@),
                        i as int,
                        hash@,
                    );
                }
                if self.waitings.len() > 0 {
                    let item = self.waitings.remove(0);
                    let h2 = item.key_hash();
                    let ghost mid = self.inflight();
                    self.mark_inflight(h2);
                    proof {
                        if mid.contains(h2@) {
                            assert(self.inflight().to_set() =~= mid.to_set().insert(h2@));
                        } else {
                            assert(self.inflight() =~= mid.push(h2@));
                            assert(self.inflight().to_set() =~= mid.to_set().insert(h2@));
                        }
                        assert(self.waitings@ =~= old(self).waiting().drop_first());
                    }
                    Some(item)
                } else {
                    None
                }
            },
            None => {
                let ghost orig = self.waitings@;
                let mut kept: Vec<T> = Vec::new();
                let ghost mut seen: Seq<T> = Seq::empty();
                proof {
                    reveal(Seq::filter);
                    assert(drops_key(seen, hash@) =~= Seq::<T>::empty());
                }
                while self.waitings.len() > 0
                    invariant
                        seen + self.waitings@ == orig,
                        kept@ == drops_key(seen, hash@),
                        self.processings@ == old(self).processings@,
                        self.capacity == old(self).capacity,
                        self.wf(),
                    decreases self.waitings@.len(),
                {
                    let ghost before = self.waitings@;
                    let t = self.waitings.remove(0);
                    proof {
                        assert(before[0] == t);
                        assert(seen.push(t) + self.waitings@ =~= orig);
                        reveal(Seq::filter);
                        assert(seen.push(t).drop_last() =~= seen);
                        assert(seen.push(t).drop_last() == seen);
                        assert(seen.push(t).last() == t);
                    }
                    let h = t.key_hash();
                    let same = h == hash;
                    proof {
                        seen = seen.push(t);
                    }
                    if !same {
                        kept.push(t);
                    }
                }
                proof {
                    assert(seen =~= orig);
                }
                self.waitings = kept;
                None
            },
        }
    }
}

/// Removing the one position that holds a key takes exactly that key out
/// of the set of a duplicate-free sequence.
proof fn lemma_removed_key_set(s: Seq<Seq<u8>>, i: int, k: Seq<u8>)
    requires
        s.no_duplicates(),
        0 <= i < s.len(),
        s[i] == k,
    ensures
        s.remove(i).to_set() == s.to_set().remove(k),
        s.remove(i).no_duplicates(),
{
    let r = s.remove(i);
    s.remove_ensures(i);
    assert forall|y: Seq<u8>| r.to_set().contains(y) implies s.to_set().contains(y) && y != k by {
        let j = choose|j: int| 0 <= j < r.len() && r[j] == y;
        if j < i {
            assert(s[j] == y);
        } else {
            assert(s[j + 1] == y);
        }
        assert(s.contains(y));
    }
    assert forall|y: Seq<u8>| s.to_set().contains(y) && y != k implies r.to_set().contains(y) by {
        let j = choose|j: int| 0 <= j < s.len() && s[j] == y;
        if j < i {
            assert(r[j] == y);
        } else {
            assert(j != i);
            assert(r[j - 1] == y);
        }
        assert(r.contains(y));
    }
    assert(r.to_set() =~= s.to_set().remove(k));
}

} // verus!
